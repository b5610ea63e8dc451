//! Rows of the wanted columns of a file.
use vstd::prelude::*;
use vstd::string::*;

use crate::assembly::column_values;
use crate::chunk::{append_values, chunk_values, read_chunk_values};
use crate::classify::{classify_column_plan, column_plan};
use crate::error::{bad, decimal, decimal_text, text3, unsupported, PqError, PqErrorView};
use crate::footer::{metadata_range, metadata_slice};
use crate::leaf::{build_plain_spec, find_leaf, leaf_index, plain_spec_of};
use crate::meta::{
    groups, metadata_of, ColumnChunk, ColumnChunkView, FileMetaData, FileMetaDataView, RowGroup,
    RowGroupView,
};
use crate::nested::{
    decode_field_by_kind, kind_column, list_column, locate, located, read_chunk_values_nested,
    read_list_of_list, read_list_of_list_of_list, ChunkWords,
};
use crate::plain::{decodes, Plain, PlainSpec};
use crate::plan::{ColumnKind, ColumnPlan, KindView, PlanView};
use crate::schema::{leaf_views, Repetition, SchemaLeaf, SchemaLeafView, Type};
use crate::text::same_text;
use crate::value::{values, PqV, PqValue};

verus! {

/// No page larger than this is read unless a caller asks for it: 256 MiB.
pub const DEFAULT_MAX_PAGE_SIZE: usize = 0x1000_0000;

/// How a wanted column is read.
pub enum Source {
    /// A leaf of a flat file, by the last part of its path.
    Leaf { name: String, spec: PlainSpec, ptype: Type, max_def_level: u32 },
    /// A column of any shape.
    Shape(ColumnPlan),
}

/// What a [`Source`] says.
pub enum SourceView {
    Leaf { name: Seq<char>, spec: PlainSpec, ptype: Type, max_def_level: u32 },
    Shape(PlanView),
}

impl View for Source {
    type V = SourceView;

    open spec fn view(&self) -> SourceView {
        match self {
            Source::Leaf { name, spec, ptype, max_def_level } => SourceView::Leaf {
                name: name@,
                spec: *spec,
                ptype: *ptype,
                max_def_level: *max_def_level,
            },
            Source::Shape(plan) => SourceView::Shape(plan@),
        }
    }
}

/// What a list of sources says.
pub open spec fn source_views(s: Seq<Source>) -> Seq<SourceView> {
    s.map_values(|x: Source| x@)
}

/// How a leaf of a flat file is read.
pub open spec fn leaf_source(leaves: Seq<SchemaLeafView>, name: Seq<char>) -> Result<
    SourceView,
    PqErrorView,
> {
    match find_leaf(leaves, name) {
        None => Err(PqErrorView::Bad("column `"@ + name + "` not found in Parquet schema"@)),
        Some(leaf) => match leaf.repetition {
            Repetition::Repeated => Err(PqErrorView::Unsupported("REPEATED columns: OBJ-2c"@)),
            Repetition::Other(_) => Err(PqErrorView::Unsupported("unknown repetition: OBJ-2c"@)),
            _ => match leaf.ptype {
                Type::Other(t) => Err(
                    PqErrorView::Unsupported(
                        "physical type Other("@ + decimal(t as int) + "): OBJ-2c"@,
                    ),
                ),
                _ => match plain_spec_of(leaf) {
                    Err(e) => Err(e),
                    Ok(spec) => Ok(
                        SourceView::Leaf {
                            name,
                            spec,
                            ptype: leaf.ptype,
                            max_def_level: if leaf.repetition == Repetition::Optional {
                                1
                            } else {
                                0
                            },
                        },
                    ),
                },
            },
        },
    }
}

/// How a wanted column is read.
pub open spec fn source_of(md: FileMetaDataView, name: Seq<char>) -> Result<
    SourceView,
    PqErrorView,
> {
    if md.flat_schema {
        leaf_source(md.leaves, name)
    } else {
        match column_plan(md.root, name, md.leaves) {
            Err(e) => Err(e),
            Ok(plan) => Ok(SourceView::Shape(plan)),
        }
    }
}

/// How the first `k` wanted columns are read.
pub open spec fn sources_of(md: FileMetaDataView, wanted: Seq<Seq<char>>, k: nat) -> Result<
    Seq<SourceView>,
    PqErrorView,
>
    decreases k,
{
    if k == 0 {
        Ok(seq![])
    } else {
        match sources_of(md, wanted, (k - 1) as nat) {
            Err(e) => Err(e),
            Ok(before) => match source_of(md, wanted[k - 1]) {
                Err(e) => Err(e),
                Ok(s) => Ok(before.push(s)),
            },
        }
    }
}

/// Whether a chunk's path ends in the name.
pub open spec fn ends_in(cc: ColumnChunkView, name: Seq<char>) -> bool {
    cc.path.len() > 0 && cc.path.last() == name
}

/// The first chunk from number `i` on whose path ends in the name.
pub open spec fn named_from(columns: Seq<ColumnChunkView>, name: Seq<char>, i: int) -> Option<
    ColumnChunkView,
>
    decreases columns.len() - i,
{
    if i < 0 || i >= columns.len() {
        None
    } else if ends_in(columns[i], name) {
        Some(columns[i])
    } else {
        named_from(columns, name, i + 1)
    }
}

/// The values of a leaf of a flat file in one row group.
pub open spec fn leaf_column(
    file: Seq<u8>,
    g: RowGroupView,
    name: Seq<char>,
    spec: PlainSpec,
    ptype: Type,
    max_def: u32,
    cap: int,
) -> Plain {
    match named_from(g.columns, name, 0) {
        None => Err(PqErrorView::Bad("row group missing column `"@ + name + "`"@)),
        Some(cc) => if cc.ptype != ptype {
            Err(
                PqErrorView::Bad(
                    "column `"@ + name + "` schema/column-chunk physical-type mismatch"@,
                ),
            )
        } else {
            chunk_values(file, cc, spec, max_def, cap)
        },
    }
}

/// How a column speaks of its chunk.
pub open spec fn column_words() -> ChunkWords {
    ChunkWords {
        missing: "row group missing column for path ",
        before: "column for path ",
        after: " schema/column-chunk physical-type mismatch",
    }
}

/// How a list of lists speaks of its chunk.
pub open spec fn list_of_list_words() -> ChunkWords {
    ChunkWords {
        missing: "List<List> row group missing column for path ",
        before: "List<List> column path ",
        after: " ptype mismatch",
    }
}

/// How a list of lists of lists speaks of its chunk.
pub open spec fn list_of_list_of_list_words() -> ChunkWords {
    ChunkWords {
        missing: "List<List<List>> row group missing column for path ",
        before: "List<List<List>> column path ",
        after: " ptype mismatch",
    }
}

/// The values of a column of any shape in one row group. Where a single chunk holds it, that is the
/// one with the plan's path.
pub open spec fn plan_column(file: Seq<u8>, g: RowGroupView, plan: PlanView, cap: int) -> Plain {
    match plan.kind {
        KindView::Flat { spec, ptype, max_def_level } => match located(
            g,
            plan.chunk_path,
            ptype,
            column_words(),
        ) {
            Err(e) => Err(e),
            Ok(cc) => chunk_values(file, cc, spec, max_def_level, cap),
        },
        KindView::NestedListPrimitive {
            spec,
            ptype,
            max_def_level,
            max_rep_level,
            outer_optional,
            element_optional,
        } => match located(g, plan.chunk_path, ptype, column_words()) {
            Err(e) => Err(e),
            Ok(cc) => list_column(
                file,
                cc,
                spec,
                max_def_level,
                max_rep_level,
                seq![outer_optional],
                element_optional,
                cap,
            ),
        },
        KindView::NestedListOfListPrimitive {
            spec,
            ptype,
            max_def_level,
            max_rep_level,
            outer_optional,
            inner_optional,
            item_optional,
        } => match located(g, plan.chunk_path, ptype, list_of_list_words()) {
            Err(e) => Err(e),
            Ok(cc) => list_column(
                file,
                cc,
                spec,
                max_def_level,
                max_rep_level,
                seq![outer_optional, inner_optional],
                item_optional,
                cap,
            ),
        },
        KindView::NestedListOfListOfListPrimitive {
            spec,
            ptype,
            max_def_level,
            max_rep_level,
            outer_optional,
            middle_optional,
            inner_optional,
            item_optional,
        } => match located(g, plan.chunk_path, ptype, list_of_list_of_list_words()) {
            Err(e) => Err(e),
            Ok(cc) => list_column(
                file,
                cc,
                spec,
                max_def_level,
                max_rep_level,
                seq![outer_optional, middle_optional, inner_optional],
                item_optional,
                cap,
            ),
        },
        _ => kind_column(file, g, plan.kind, cap),
    }
}

/// The values of a wanted column in one row group.
pub open spec fn column_of(file: Seq<u8>, g: RowGroupView, s: SourceView, cap: int) -> Plain {
    match s {
        SourceView::Leaf { name, spec, ptype, max_def_level } => leaf_column(
            file,
            g,
            name,
            spec,
            ptype,
            max_def_level,
            cap,
        ),
        SourceView::Shape(plan) => plan_column(file, g, plan, cap),
    }
}

/// The columns in `have`, the first `k` of them with their values in one more row group.
pub open spec fn with_group(
    file: Seq<u8>,
    g: RowGroupView,
    sources: Seq<SourceView>,
    k: nat,
    have: Seq<Seq<PqV>>,
    cap: int,
) -> Result<Seq<Seq<PqV>>, PqErrorView>
    decreases k,
{
    if k == 0 {
        Ok(have)
    } else {
        match with_group(file, g, sources, (k - 1) as nat, have, cap) {
            Err(e) => Err(e),
            Ok(columns) => match column_of(file, g, sources[k - 1], cap) {
                Err(e) => Err(e),
                Ok(v) => Ok(columns.update(k - 1, columns[k - 1] + v)),
            },
        }
    }
}

/// The wanted columns in the first `n` row groups.
pub open spec fn columns_of(
    file: Seq<u8>,
    row_groups: Seq<RowGroupView>,
    n: nat,
    sources: Seq<SourceView>,
    cap: int,
) -> Result<Seq<Seq<PqV>>, PqErrorView>
    decreases n,
{
    if n == 0 {
        Ok(Seq::new(sources.len(), |i: int| Seq::<PqV>::empty()))
    } else {
        match columns_of(file, row_groups, (n - 1) as nat, sources, cap) {
            Err(e) => Err(e),
            Ok(have) => with_group(
                file,
                row_groups[n - 1],
                sources,
                sources.len(),
                have,
                cap,
            ),
        }
    }
}

/// How many rows the columns have: as many as the first of them has values.
pub open spec fn row_count(columns: Seq<Seq<PqV>>) -> nat {
    if columns.len() == 0 {
        0
    } else {
        columns[0].len()
    }
}

/// The rows of the columns, which all have as many values.
pub open spec fn rows_of(columns: Seq<Seq<PqV>>) -> Result<Seq<Seq<PqV>>, PqErrorView> {
    if exists|c: int|
        0 <= c < columns.len() && (#[trigger] columns[c]).len() != row_count(columns) {
        Err(PqErrorView::Bad("column length mismatch"@))
    } else {
        Ok(
            Seq::new(
                row_count(columns),
                |r: int| Seq::new(columns.len(), |c: int| columns[c][r]),
            ),
        )
    }
}

/// The rows of the wanted columns of a file, all row groups one after the other. No page above
/// `cap` bytes is read.
pub open spec fn extracted(file: Seq<u8>, wanted: Seq<Seq<char>>, cap: int) -> Result<
    Seq<Seq<PqV>>,
    PqErrorView,
> {
    match metadata_range(file) {
        Err(e) => Err(e),
        Ok((a, b)) => match metadata_of(file.subrange(a, b)) {
            Err(e) => Err(e),
            Ok(md) => rows_in(file, md, wanted, cap),
        },
    }
}

/// The rows of the wanted columns of a file with the metadata.
pub open spec fn rows_in(
    file: Seq<u8>,
    md: FileMetaDataView,
    wanted: Seq<Seq<char>>,
    cap: int,
) -> Result<Seq<Seq<PqV>>, PqErrorView> {
    match sources_of(md, wanted, wanted.len()) {
        Err(e) => Err(e),
        Ok(sources) => match columns_of(
            file,
            md.row_groups,
            md.row_groups.len(),
            sources,
            cap,
        ) {
            Err(e) => Err(e),
            Ok(columns) => rows_of(columns),
        },
    }
}

/// The characters of a list of names.
pub open spec fn names(s: Seq<&str>) -> Seq<Seq<char>> {
    s.map_values(|t: &str| t@)
}

/// Whether the rows are what `s` says.
pub open spec fn gives_rows(
    r: Result<Vec<Vec<PqValue>>, PqError>,
    s: Result<Seq<Seq<PqV>>, PqErrorView>,
) -> bool {
    match (r, s) {
        (Ok(v), Ok(w)) => column_values(v@) == w,
        (Err(x), Err(y)) => x@ == y,
        _ => false,
    }
}

/// How a leaf of a flat file is read.
fn plan_leaf(leaves: &Vec<SchemaLeaf>, name: &str) -> (r: Result<Source, PqError>)
    ensures
        match (r, leaf_source(leaf_views(leaves@), name@)) {
            (Ok(v), Ok(w)) => v@ == w,
            (Err(x), Err(y)) => x@ == y,
            _ => false,
        },
{
    let i: usize = match leaf_index(leaves.as_slice(), name) {
        Some(i) => i,
        None => {
            return Err(PqError::Bad(text3("column `", name, "` not found in Parquet schema")));
        },
    };
    let leaf = &leaves[i];
    let max_def_level: u32 = match leaf.repetition {
        Repetition::Required => 0,
        Repetition::Optional => 1,
        Repetition::Repeated => {
            return Err(unsupported("REPEATED columns: OBJ-2c"));
        },
        Repetition::Other(_) => {
            return Err(unsupported("unknown repetition: OBJ-2c"));
        },
    };
    match leaf.ptype {
        Type::Other(t) => {
            let n = decimal_text(t as i128);
            return Err(
                PqError::Unsupported(text3("physical type Other(", n.as_str(), "): OBJ-2c")),
            );
        },
        _ => {},
    }
    let spec = build_plain_spec(leaf)?;
    Ok(Source::Leaf { name: name.to_owned(), spec, ptype: leaf.ptype, max_def_level })
}

/// How a wanted column is read.
fn plan_source(md: &FileMetaData, name: &str) -> (r: Result<Source, PqError>)
    ensures
        match (r, source_of(md@, name@)) {
            (Ok(v), Ok(w)) => v@ == w,
            (Err(x), Err(y)) => x@ == y,
            _ => false,
        },
{
    if md.flat_schema {
        plan_leaf(&md.leaves, name)
    } else {
        let plan = classify_column_plan(&md.schema_tree.root, name, md.leaves.as_slice())?;
        Ok(Source::Shape(plan))
    }
}

proof fn lemma_sources_error(md: FileMetaDataView, wanted: Seq<Seq<char>>, few: nat, k: nat)
    requires
        few <= k,
    ensures
        sources_of(md, wanted, few) matches Err(e) ==> sources_of(md, wanted, k) == Err::<
            Seq<SourceView>,
            PqErrorView,
        >(e),
    decreases k,
{
    if few < k {
        lemma_sources_error(md, wanted, few, (k - 1) as nat);
    }
}

/// How the wanted columns are read.
fn plan_sources(md: &FileMetaData, wanted: &[&str]) -> (r: Result<Vec<Source>, PqError>)
    ensures
        match (r, sources_of(md@, names(wanted@), wanted@.len())) {
            (Ok(v), Ok(w)) => source_views(v@) == w && v@.len() == wanted@.len(),
            (Err(x), Err(y)) => x@ == y,
            _ => false,
        },
{
    let mut out: Vec<Source> = Vec::new();
    let mut i: usize = 0;
    proof {
        assert(source_views(out@) =~= seq![]);
    }
    while i < wanted.len()
        invariant
            i <= wanted@.len(),
            out@.len() == i,
            sources_of(md@, names(wanted@), i as nat) == Ok::<Seq<SourceView>, PqErrorView>(
                source_views(out@),
            ),
        decreases wanted@.len() - i,
    {
        proof {
            assert(names(wanted@)[i as int] == wanted@[i as int]@);
            lemma_sources_error(md@, names(wanted@), (i + 1) as nat, wanted@.len());
        }
        let s = plan_source(md, wanted[i])?;
        let ghost before = out@;
        out.push(s);
        proof {
            assert(source_views(out@) =~= source_views(before).push(s@));
        }
        i = i + 1;
    }
    Ok(out)
}

/// Whether a chunk's path ends in the name.
fn path_ends_in(cc: &ColumnChunk, name: &str) -> (r: bool)
    ensures
        r == ends_in(cc@, name@),
{
    if cc.path.len() == 0 {
        return false;
    }
    let last = &cc.path[cc.path.len() - 1];
    same_text(last.as_str(), name)
}

/// Reads the values of a leaf of a flat file in one row group.
fn read_leaf(
    file: &[u8],
    rg: &RowGroup,
    name: &str,
    spec: PlainSpec,
    ptype: Type,
    max_def_level: u32,
    max_page_size: usize,
) -> (r: Result<Vec<PqValue>, PqError>)
    ensures
        decodes(
            r,
            leaf_column(
                file@,
                rg@,
                name@,
                spec,
                ptype,
                max_def_level,
                max_page_size as int,
            ),
        ),
{
    let mut i: usize = 0;
    while i < rg.columns.len()
        invariant
            i <= rg.columns@.len(),
            named_from(rg@.columns, name@, 0) == named_from(rg@.columns, name@, i as int),
        decreases rg.columns@.len() - i,
    {
        assert(rg@.columns[i as int] == rg.columns@[i as int]@);
        let cc = &rg.columns[i];
        if path_ends_in(cc, name) {
            if cc.ptype != ptype {
                return Err(
                    PqError::Bad(
                        text3("column `", name, "` schema/column-chunk physical-type mismatch"),
                    ),
                );
            }
            return read_chunk_values(file, cc, spec, max_def_level, max_page_size);
        }
        i = i + 1;
    }
    Err(PqError::Bad(text3("row group missing column `", name, "`")))
}

/// Reads the values of a column of any shape in one row group.
fn read_plan(file: &[u8], rg: &RowGroup, plan: &ColumnPlan, max_page_size: usize) -> (r: Result<
    Vec<PqValue>,
    PqError,
>)
    ensures
        decodes(r, plan_column(file@, rg@, plan@, max_page_size as int)),
{
    let words = ChunkWords {
        missing: "row group missing column for path ",
        before: "column for path ",
        after: " schema/column-chunk physical-type mismatch",
    };
    match &plan.kind {
        ColumnKind::Flat { spec, ptype, max_def_level } => {
            let cc = locate(rg, &plan.chunk_path, *ptype, words)?;
            read_chunk_values(file, cc, *spec, *max_def_level, max_page_size)
        },
        ColumnKind::NestedListPrimitive {
            spec,
            ptype,
            max_def_level,
            max_rep_level,
            outer_optional,
            element_optional,
        } => {
            let cc = locate(rg, &plan.chunk_path, *ptype, words)?;
            read_chunk_values_nested(
                file,
                cc,
                *spec,
                *max_def_level,
                *max_rep_level,
                *outer_optional,
                *element_optional,
                max_page_size,
            )
        },
        ColumnKind::NestedListOfListPrimitive {
            spec,
            ptype,
            max_def_level,
            max_rep_level,
            outer_optional,
            inner_optional,
            item_optional,
        } => {
            let cc = locate(
                rg,
                &plan.chunk_path,
                *ptype,
                ChunkWords {
                    missing: "List<List> row group missing column for path ",
                    before: "List<List> column path ",
                    after: " ptype mismatch",
                },
            )?;
            read_list_of_list(
                file,
                cc,
                *spec,
                *max_def_level,
                *max_rep_level,
                *outer_optional,
                *inner_optional,
                *item_optional,
                max_page_size,
            )
        },
        ColumnKind::NestedListOfListOfListPrimitive {
            spec,
            ptype,
            max_def_level,
            max_rep_level,
            outer_optional,
            middle_optional,
            inner_optional,
            item_optional,
        } => {
            let cc = locate(
                rg,
                &plan.chunk_path,
                *ptype,
                ChunkWords {
                    missing: "List<List<List>> row group missing column for path ",
                    before: "List<List<List>> column path ",
                    after: " ptype mismatch",
                },
            )?;
            read_list_of_list_of_list(
                file,
                cc,
                *spec,
                *max_def_level,
                *max_rep_level,
                *outer_optional,
                *middle_optional,
                *inner_optional,
                *item_optional,
                max_page_size,
            )
        },
        _ => decode_field_by_kind(file, rg, &plan.kind, max_page_size),
    }
}

/// Reads the values of a wanted column in one row group.
fn read_source(file: &[u8], rg: &RowGroup, s: &Source, max_page_size: usize) -> (r: Result<
    Vec<PqValue>,
    PqError,
>)
    ensures
        decodes(r, column_of(file@, rg@, s@, max_page_size as int)),
{
    match s {
        Source::Leaf { name, spec, ptype, max_def_level } => read_leaf(
            file,
            rg,
            name.as_str(),
            *spec,
            *ptype,
            *max_def_level,
            max_page_size,
        ),
        Source::Shape(plan) => read_plan(file, rg, plan, max_page_size),
    }
}

proof fn lemma_with_group_error(
    file: Seq<u8>,
    g: RowGroupView,
    sources: Seq<SourceView>,
    few: nat,
    k: nat,
    have: Seq<Seq<PqV>>,
    cap: int,
)
    requires
        few <= k,
    ensures
        with_group(file, g, sources, few, have, cap) matches Err(e) ==> with_group(
            file,
            g,
            sources,
            k,
            have,
            cap,
        ) == Err::<Seq<Seq<PqV>>, PqErrorView>(e),
    decreases k,
{
    if few < k {
        lemma_with_group_error(file, g, sources, few, (k - 1) as nat, have, cap);
    }
}

/// Appends the values of the wanted columns in one row group.
fn read_group(
    file: &[u8],
    rg: &RowGroup,
    sources: &Vec<Source>,
    columns: &mut Vec<Vec<PqValue>>,
    max_page_size: usize,
) -> (r: Result<(), PqError>)
    requires
        old(columns)@.len() == sources@.len(),
    ensures
        match (
            r,
            with_group(
                file@,
                rg@,
                source_views(sources@),
                sources@.len(),
                column_values(old(columns)@),
                max_page_size as int,
            ),
        ) {
            (Ok(_), Ok(w)) => column_values(final(columns)@) == w && final(columns)@.len()
                == sources@.len(),
            (Err(x), Err(y)) => x@ == y,
            _ => false,
        },
{
    let ghost have = column_values(columns@);
    let ghost sv = source_views(sources@);
    let mut i: usize = 0;
    while i < sources.len()
        invariant
            i <= sources@.len(),
            columns@.len() == sources@.len(),
            have == column_values(old(columns)@),
            sv == source_views(sources@),
            with_group(file@, rg@, sv, i as nat, have, max_page_size as int) == Ok::<
                Seq<Seq<PqV>>,
                PqErrorView,
            >(column_values(columns@)),
        decreases sources@.len() - i,
    {
        proof {
            assert(sv[i as int] == sources@[i as int]@);
            lemma_with_group_error(
                file@,
                rg@,
                sv,
                (i + 1) as nat,
                sources@.len(),
                have,
                max_page_size as int,
            );
        }
        let v = read_source(file, rg, &sources[i], max_page_size)?;
        let ghost before = columns@;
        let ghost more = values(v@);
        append_values(&mut columns[i], v);
        proof {
            assert(column_values(columns@) =~= column_values(before).update(
                i as int,
                column_values(before)[i as int] + more,
            ));
        }
        i = i + 1;
    }
    Ok(())
}

proof fn lemma_columns_error(
    file: Seq<u8>,
    row_groups: Seq<RowGroupView>,
    few: nat,
    n: nat,
    sources: Seq<SourceView>,
    cap: int,
)
    requires
        few <= n,
    ensures
        columns_of(file, row_groups, few, sources, cap) matches Err(e) ==> columns_of(
            file,
            row_groups,
            n,
            sources,
            cap,
        ) == Err::<Seq<Seq<PqV>>, PqErrorView>(e),
    decreases n,
{
    if few < n {
        lemma_columns_error(file, row_groups, few, (n - 1) as nat, sources, cap);
    }
}

/// Reads the wanted columns in all row groups.
fn read_columns(
    file: &[u8],
    row_groups: &Vec<RowGroup>,
    sources: &Vec<Source>,
    max_page_size: usize,
) -> (r: Result<Vec<Vec<PqValue>>, PqError>)
    ensures
        gives_rows(
            r,
            columns_of(
                file@,
                groups(row_groups@),
                row_groups@.len(),
                source_views(sources@),
                max_page_size as int,
            ),
        ),
        r matches Ok(v) ==> v@.len() == sources@.len(),
{
    let ghost gv = groups(row_groups@);
    let ghost sv = source_views(sources@);
    let mut columns: Vec<Vec<PqValue>> = Vec::new();
    let mut c: usize = 0;
    while c < sources.len()
        invariant
            c <= sources@.len(),
            columns@.len() == c,
            forall|j: int| 0 <= j < c ==> (#[trigger] columns@[j])@.len() == 0,
        decreases sources@.len() - c,
    {
        columns.push(Vec::new());
        c = c + 1;
    }
    proof {
        assert(column_values(columns@) =~= Seq::new(sv.len(), |i: int| Seq::<PqV>::empty())) by {
            assert forall|j: int| 0 <= j < sv.len() implies #[trigger] column_values(columns@)[j]
                == Seq::<PqV>::empty() by {
                assert(values(columns@[j]@) =~= Seq::<PqV>::empty());
            }
        }
    }
    let mut i: usize = 0;
    while i < row_groups.len()
        invariant
            i <= row_groups@.len(),
            columns@.len() == sources@.len(),
            gv == groups(row_groups@),
            sv == source_views(sources@),
            columns_of(file@, gv, i as nat, sv, max_page_size as int) == Ok::<
                Seq<Seq<PqV>>,
                PqErrorView,
            >(column_values(columns@)),
        decreases row_groups@.len() - i,
    {
        proof {
            assert(gv[i as int] == row_groups@[i as int]@);
            assert(sv.len() == sources@.len());
            lemma_columns_error(
                file@,
                gv,
                (i + 1) as nat,
                row_groups@.len(),
                sv,
                max_page_size as int,
            );
        }
        read_group(file, &row_groups[i], sources, &mut columns, max_page_size)?;
        i = i + 1;
    }
    Ok(columns)
}

/// Turns columns of equal length into rows.
pub fn transpose(columns: &Vec<Vec<PqValue>>) -> (r: Result<Vec<Vec<PqValue>>, PqError>)
    ensures
        gives_rows(r, rows_of(column_values(columns@))),
        r matches Ok(v) ==> forall|i: int|
            0 <= i < v@.len() ==> (#[trigger] v@[i])@.len() == columns@.len(),
{
    let ghost cv = column_values(columns@);
    let n: usize = if columns.len() == 0 {
        0
    } else {
        columns[0].len()
    };
    let mut c: usize = 0;
    while c < columns.len()
        invariant
            c <= columns@.len(),
            cv == column_values(columns@),
            n == row_count(cv),
            forall|j: int| 0 <= j < c ==> (#[trigger] columns@[j])@.len() == n,
        decreases columns@.len() - c,
    {
        if columns[c].len() != n {
            assert(cv[c as int].len() != row_count(cv));
            return Err(bad("column length mismatch"));
        }
        c = c + 1;
    }
    let mut rows: Vec<Vec<PqValue>> = Vec::new();
    let mut i: usize = 0;
    while i < n
        invariant
            i <= n,
            cv == column_values(columns@),
            forall|j: int| 0 <= j < columns@.len() ==> (#[trigger] columns@[j])@.len() == n,
            rows@.len() == i,
            forall|k: int|
                0 <= k < i ==> values((#[trigger] rows@[k])@) == Seq::new(
                    cv.len(),
                    |j: int| cv[j][k],
                ),
            forall|k: int| 0 <= k < i ==> (#[trigger] rows@[k])@.len() == columns@.len(),
        decreases n - i,
    {
        let mut row: Vec<PqValue> = Vec::new();
        let mut j: usize = 0;
        while j < columns.len()
            invariant
                i < n,
                j <= columns@.len(),
                row@.len() == j,
                forall|k: int| 0 <= k < columns@.len() ==> (#[trigger] columns@[k])@.len() == n,
                forall|k: int| 0 <= k < j ==> (#[trigger] row@[k])@ == columns@[k]@[i as int]@,
            decreases columns@.len() - j,
        {
            row.push(columns[j][i].clone());
            j = j + 1;
        }
        proof {
            assert(values(row@) =~= Seq::new(cv.len(), |k: int| cv[k][i as int]));
        }
        rows.push(row);
        i = i + 1;
    }
    proof {
        assert forall|k: int| 0 <= k < cv.len() implies (#[trigger] cv[k]).len() == row_count(
            cv,
        ) by {
            assert(columns@[k]@.len() == n);
        }
        assert(column_values(rows@) =~= rows_of(cv)->Ok_0);
    }
    Ok(rows)
}

/// Reads the rows of the wanted columns, in the order in which they are wanted. No page above
/// `max_page_size` bytes is read.
pub fn extract_with_cap(bytes: &[u8], wanted: &[&str], max_page_size: usize) -> (r: Result<
    Vec<Vec<PqValue>>,
    PqError,
>)
    ensures
        gives_rows(r, extracted(bytes@, names(wanted@), max_page_size as int)),
        r matches Ok(v) ==> forall|i: int|
            0 <= i < v@.len() ==> (#[trigger] v@[i])@.len() == wanted@.len(),
{
    let md = FileMetaData::decode(metadata_slice(bytes)?)?;
    let sources = plan_sources(&md, wanted)?;
    let columns = read_columns(bytes, &md.row_groups, &sources, max_page_size)?;
    proof {
        assert(names(wanted@).len() == wanted@.len());
    }
    transpose(&columns)
}

/// Reads the rows of the wanted columns, in the order in which they are wanted. No page above
/// [`DEFAULT_MAX_PAGE_SIZE`] bytes is read.
pub fn extract(bytes: &[u8], wanted: &[&str]) -> (r: Result<Vec<Vec<PqValue>>, PqError>)
    ensures
        gives_rows(r, extracted(bytes@, names(wanted@), DEFAULT_MAX_PAGE_SIZE as int)),
        r matches Ok(v) ==> forall|i: int|
            0 <= i < v@.len() ==> (#[trigger] v@[i])@.len() == wanted@.len(),
{
    extract_with_cap(bytes, wanted, DEFAULT_MAX_PAGE_SIZE)
}

} // verus!
