//! Whole files: a flat table that was written is read back.
use vstd::prelude::*;

use crate::chunk::{chunk_ready, chunk_values, encoding_known, flat_page_at};
use crate::codec::{codec_known, expanded};
use crate::error::PqErrorView;
use crate::extract::{
    column_of, columns_of, extracted, named_from, row_count, rows_in, rows_of, source_of,
    sources_of, SourceView,
};
use crate::footer::{metadata_range, MAGIC};
use crate::laws::columns::{column_in, lemma_columns};
use crate::laws::fields::{datum_form, datum_ok, lemma_stands, stands, Datum};
use crate::laws::metadata::{
    chunk_after, chunk_fields_ok, chunk_of, column_after, column_fields_ok, element_fields_ok,
    element_of, encodings_of, file_after, file_fields_ok, group_after, group_fields_ok, group_of,
    law_metadata, segments_of,
};
use crate::laws::numbers::{law_le, le_form};
use crate::laws::pages::{
    dictionary_of, law_chunk, page_form, page_ok, pages_form, pages_values, Page,
};
use crate::laws::stored::{law_v1_page, v1_page};
use crate::leaf::{find_leaf, plain_spec_of};
use crate::meta::{
    blank_chunk, blank_file, blank_group, metadata_with, Codec, ColumnChunkView, Encoding,
    FileFields, FileMetaDataView, RowGroupView,
};
use crate::page::{flat_page, page_words};
use crate::plain::{Plain, PlainSpec};
use crate::schema::{
    is_flat, leaves_of, lemma_used_up, node_at, nodes_at, tree_of, Repetition, SchemaElementView, SchemaLeafView,
    Type,
};
use crate::text::text_of;
use crate::thrift::ctype;
use crate::value::PqV;

verus! {

/// A column of a table: the bytes of its name, the number of its physical type, and its schema
/// element.
pub struct Column {
    pub name: Seq<u8>,
    pub ptype: i32,
    pub element: Seq<(i16, Datum)>,
}

/// What a row group stores of a column, and the values that are stored so.
pub struct Part {
    pub codec: i32,
    pub encodings: Seq<i32>,
    pub dict: Option<Page>,
    pub pages: Seq<Page>,
    pub values: Seq<PqV>,
}

/// A flat table: the schema element of its root, its columns, and for each row group what it stores
/// of each column.
pub struct Table {
    pub root: Seq<(i16, Datum)>,
    pub columns: Seq<Column>,
    pub groups: Seq<Seq<Part>>,
}

/// What the schema element of a column says.
pub open spec fn element(col: Column) -> SchemaElementView {
    element_of(Datum::Struct(col.element))
}

/// The name of a column.
pub open spec fn name_of(col: Column) -> Seq<char> {
    text_of(col.name)
}

/// How the values of a column are read.
pub open spec fn spec_of(col: Column) -> PlainSpec {
    plain_spec_of(element(col).leaf())->Ok_0
}

/// The largest definition level of a column.
pub open spec fn max_def_of(col: Column) -> u32 {
    if element(col).repetition == Repetition::Optional {
        1
    } else {
        0
    }
}

/// Whether a column is one that can be read: a leaf of a known type that does not repeat.
pub open spec fn column_ok(col: Column) -> bool {
    let e = element(col);
    &&& element_fields_ok(col.element)
    &&& e.is_leaf()
    &&& e.name == name_of(col)
    &&& e.ptype == Some(Type::of(col.ptype))
    &&& !(Type::of(col.ptype) is Other)
    &&& e.repetition == Repetition::Required || e.repetition == Repetition::Optional
    &&& plain_spec_of(e.leaf()) is Ok
}

/// What a column chunk says that stores a part at `at`.
pub open spec fn chunk_view(col: Column, part: Part, at: i64) -> ColumnChunkView {
    ColumnChunkView {
        path: seq![name_of(col)],
        ptype: Type::of(col.ptype),
        codec: Codec::of(part.codec),
        encodings: Seq::new(part.encodings.len(), |i: int| Encoding::of(part.encodings[i])),
        num_values: part.values.len() as i64,
        data_page_offset: (at + dict_form(part).len()) as i64,
        dictionary_page_offset: if part.dict is Some {
            Some(at)
        } else {
            None
        },
    }
}

/// The values that the pages of a part hold.
pub open spec fn part_values(col: Column, part: Part, cap: int) -> Plain {
    let cc = chunk_view(col, part, 0);
    match dictionary_of(part.dict, cc, spec_of(col), cap) {
        Err(e) => Err(e),
        Ok(dict) => pages_values(
            part.pages,
            cc,
            spec_of(col),
            max_def_of(col),
            dict,
            cap,
            part.pages.len(),
        ),
    }
}

/// Whether a part stores its values: its codec and its encodings are known, and its pages, each of
/// them alone, give the values.
pub open spec fn part_ok(col: Column, part: Part, cap: int) -> bool {
    &&& codec_known(Codec::of(part.codec))
    &&& forall|i: int|
        0 <= i < part.encodings.len() ==> encoding_known(Encoding::of(#[trigger] part.encodings[i]))
    &&& part.dict matches Some(d) ==> page_ok(d)
    &&& forall|i: int| 0 <= i < part.pages.len() ==> page_ok(#[trigger] part.pages[i])
    &&& part_values(col, part, cap) == Ok::<Seq<PqV>, PqErrorView>(part.values)
    &&& part.values.len() <= usize::MAX
    &&& part.values.len() <= i64::MAX
}

/// How the dictionary of a part is written.
pub open spec fn dict_form(part: Part) -> Seq<u8> {
    match part.dict {
        Some(d) => page_form(d),
        None => seq![],
    }
}

/// How a part is written: its dictionary, then its pages.
pub open spec fn part_form(part: Part) -> Seq<u8> {
    dict_form(part) + pages_form(part.pages, part.pages.len())
}

/// How the first `k` parts of a row group are written.
pub open spec fn parts_form(parts: Seq<Part>, k: nat) -> Seq<u8>
    decreases k,
{
    if k == 0 {
        seq![]
    } else {
        parts_form(parts, (k - 1) as nat) + part_form(parts[k - 1])
    }
}

/// How the first `k` row groups are written.
pub open spec fn groups_form(groups: Seq<Seq<Part>>, k: nat) -> Seq<u8>
    decreases k,
{
    if k == 0 {
        seq![]
    } else {
        groups_form(groups, (k - 1) as nat) + parts_form(groups[k - 1], groups[k - 1].len())
    }
}

/// Where part `c` of row group `g` stands in the file.
pub open spec fn part_at(t: Table, g: int, c: int) -> int {
    4int + groups_form(t.groups, g as nat).len() + parts_form(t.groups[g], c as nat).len()
}

/// The metadata of a column chunk that stores a part at `at`.
pub open spec fn column_record(col: Column, part: Part, at: i64) -> Seq<(i16, Datum)> {
    let items = Seq::new(part.encodings.len(), |i: int| Datum::I32(part.encodings[i]));
    let fields = seq![
        (1i16, Datum::I32(col.ptype)),
        (2i16, Datum::List { elements: ctype::I32, items }),
        (3i16, Datum::List { elements: ctype::BINARY, items: seq![Datum::Binary(col.name)] }),
        (4i16, Datum::I32(part.codec)),
        (5i16, Datum::I64(part.values.len() as i64)),
        (9i16, Datum::I64((at + dict_form(part).len()) as i64)),
    ];
    if part.dict is Some {
        fields.push((11i16, Datum::I64(at)))
    } else {
        fields
    }
}

/// A column chunk that stores a part at `at`.
pub open spec fn chunk_record(col: Column, part: Part, at: i64) -> Datum {
    Datum::Struct(seq![(3i16, Datum::Struct(column_record(col, part, at)))])
}

/// How many rows a row group has.
pub open spec fn group_rows(parts: Seq<Part>) -> nat {
    if parts.len() == 0 {
        0
    } else {
        parts[0].values.len()
    }
}

/// A row group.
pub open spec fn group_record(t: Table, g: int) -> Datum {
    let items = Seq::new(
        t.columns.len(),
        |c: int| chunk_record(t.columns[c], t.groups[g][c], part_at(t, g, c) as i64),
    );
    Datum::Struct(
        seq![
            (1i16, Datum::List { elements: ctype::STRUCT, items }),
            (3i16, Datum::I64(group_rows(t.groups[g]) as i64)),
        ],
    )
}

/// The metadata of a table.
pub open spec fn file_record(t: Table) -> Seq<(i16, Datum)> {
    let schema = Seq::new(
        t.columns.len() + 1,
        |i: int|
            if i == 0 {
                Datum::Struct(t.root)
            } else {
                Datum::Struct(t.columns[i - 1].element)
            },
    );
    let groups = Seq::new(t.groups.len(), |g: int| group_record(t, g));
    seq![
        (1i16, Datum::I32(2)),
        (2i16, Datum::List { elements: ctype::STRUCT, items: schema }),
        (3i16, Datum::I64(table_rows(t, t.groups.len()) as i64)),
        (4i16, Datum::List { elements: ctype::STRUCT, items: groups }),
    ]
}

/// How many rows the first `n` row groups have.
pub open spec fn table_rows(t: Table, n: nat) -> nat
    decreases n,
{
    if n == 0 {
        0
    } else {
        table_rows(t, (n - 1) as nat) + group_rows(t.groups[n - 1])
    }
}

/// How a table is written: the magic bytes, the row groups, the metadata, its length, and the magic
/// bytes again.
pub open spec fn file_form(t: Table) -> Seq<u8> {
    let record = datum_form(Datum::Struct(file_record(t)));
    MAGIC@ + (groups_form(t.groups, t.groups.len()) + (record + (le_form(record.len(), 4)
        + MAGIC@)))
}

proof fn lemma_column_record(col: Column, part: Part, at: i64)
    requires
        datum_ok(chunk_record(col, part, at)),
    ensures
        chunk_fields_ok(chunk_record(col, part, at)->Struct_0),
        chunk_of(chunk_record(col, part, at)) == chunk_view(col, part, at),
{
    let rec = column_record(col, part, at);
    let fields = chunk_record(col, part, at)->Struct_0;
    assert(fields[0] == (3i16, Datum::Struct(rec)));
    assert(datum_ok(fields[0].1));
    assert(column_fields_ok(rec)) by {
        assert forall|i: int| 0 <= i < rec.len() implies crate::laws::metadata::column_takes(
            (#[trigger] rec[i]).0,
            rec[i].1,
        ) && datum_ok(rec[i].1) by {}
    }
    reveal_with_fuel(column_after, 8);
    reveal_with_fuel(chunk_after, 2);
    let encodings = rec[1].1->items;
    assert(encodings_of(encodings, encodings.len()) =~= chunk_view(col, part, at).encodings);
    let path = rec[2].1->items;
    assert(segments_of(path, path.len()) =~= seq![name_of(col)]);
    let view = column_after(blank_chunk(), rec, rec.len());
    assert(view.encodings =~= chunk_view(col, part, at).encodings);
    assert(view.path =~= chunk_view(col, part, at).path);
}

/// What the row group says.
pub open spec fn group_view(t: Table, g: int) -> RowGroupView {
    RowGroupView {
        columns: Seq::new(
            t.columns.len(),
            |c: int| chunk_view(t.columns[c], t.groups[g][c], part_at(t, g, c) as i64),
        ),
        num_rows: group_rows(t.groups[g]) as i64,
    }
}

proof fn lemma_group_record(t: Table, g: int)
    requires
        datum_ok(group_record(t, g)),
    ensures
        group_fields_ok(group_record(t, g)->Struct_0),
        group_of(group_record(t, g)) == group_view(t, g),
{
    let fields = group_record(t, g)->Struct_0;
    let items = fields[0].1->items;
    assert(datum_ok(fields[0].1));
    assert(fields[0].1 == Datum::List { elements: ctype::STRUCT, items });
    assert forall|c: int| 0 <= c < items.len() implies chunk_fields_ok(
        (#[trigger] items[c])->Struct_0,
    ) && chunk_of(items[c]) == chunk_view(
        t.columns[c],
        t.groups[g][c],
        part_at(t, g, c) as i64,
    ) by {
        assert(datum_ok(items[c]));
        lemma_column_record(t.columns[c], t.groups[g][c], part_at(t, g, c) as i64);
    }
    assert(group_fields_ok(fields)) by {
        assert forall|i: int| 0 <= i < fields.len() implies crate::laws::metadata::group_takes(
            (#[trigger] fields[i]).0,
            fields[i].1,
        ) && datum_ok(fields[i].1) by {}
    }
    reveal_with_fuel(group_after, 3);
    let view = group_after(blank_group(), fields, 2);
    assert(view.columns =~= group_view(t, g).columns);
}

/// The schema elements of a table: the root, then the columns.
pub open spec fn elements_of(t: Table) -> Seq<SchemaElementView> {
    Seq::new(
        t.columns.len() + 1,
        |i: int|
            if i == 0 {
                element_of(Datum::Struct(t.root))
            } else {
                element(t.columns[i - 1])
            },
    )
}

/// What the metadata of a table says.
pub open spec fn fields_of(t: Table) -> FileFields {
    FileFields {
        version: 2,
        num_rows: table_rows(t, t.groups.len()) as i64,
        elements: elements_of(t),
        row_groups: Seq::new(t.groups.len(), |g: int| group_view(t, g)),
    }
}

proof fn lemma_file_record(t: Table)
    requires
        datum_ok(Datum::Struct(file_record(t))),
        element_fields_ok(t.root),
        forall|c: int| 0 <= c < t.columns.len() ==> element_fields_ok(
            (#[trigger] t.columns[c]).element,
        ),
    ensures
        file_fields_ok(file_record(t)),
        file_after(blank_file(), file_record(t), file_record(t).len()) == fields_of(t),
{
    let fields = file_record(t);
    let schema = fields[1].1->items;
    let groups = fields[3].1->items;
    let whole = Datum::Struct(fields);
    assert(whole->Struct_0[1] == fields[1]);
    assert(whole->Struct_0[3] == fields[3]);
    assert(datum_ok(fields[1].1));
    assert(datum_ok(fields[3].1));
    assert(fields[1].1 == Datum::List { elements: ctype::STRUCT, items: schema });
    assert(fields[3].1 == Datum::List { elements: ctype::STRUCT, items: groups });
    assert forall|i: int| 0 <= i < schema.len() implies element_fields_ok(
        (#[trigger] schema[i])->Struct_0,
    ) by {
        if i > 0 {
            assert(element_fields_ok(t.columns[i - 1].element));
        }
    }
    assert forall|g: int| 0 <= g < groups.len() implies group_fields_ok(
        (#[trigger] groups[g])->Struct_0,
    ) && group_of(groups[g]) == group_view(t, g) by {
        assert(datum_ok(groups[g]));
        lemma_group_record(t, g);
    }
    assert(file_fields_ok(fields)) by {
        assert forall|i: int| 0 <= i < fields.len() implies crate::laws::metadata::file_takes(
            (#[trigger] fields[i]).0,
            fields[i].1,
        ) && datum_ok(fields[i].1) by {}
    }
    reveal_with_fuel(file_after, 5);
    let view = file_after(blank_file(), fields, 4);
    assert(view.elements =~= elements_of(t));
    assert(view.row_groups =~= fields_of(t).row_groups);
}

/// Whether the schema of a table is one: a root with the columns below it, under different names.
pub open spec fn schema_ok(t: Table) -> bool {
    let root = element_of(Datum::Struct(t.root));
    &&& element_fields_ok(t.root)
    &&& !root.is_leaf()
    &&& forall|c: int| 0 <= c < t.columns.len() ==> column_ok(#[trigger] t.columns[c])
    &&& forall|c: int, d: int|
        0 <= c < d < t.columns.len() ==> name_of(#[trigger] t.columns[c]) != name_of(
            #[trigger] t.columns[d],
        )
}

proof fn lemma_nodes(t: Table, k: nat, path: Seq<Seq<char>>)
    requires
        schema_ok(t),
        k <= t.columns.len(),
    ensures
        ({
            let (c, next) = nodes_at(elements_of(t), 1, k, 0, 0, path);
            &&& next == k + 1
            &&& c.len() == k
            &&& forall|i: int| 0 <= i < k ==> (#[trigger] c[i]) is Leaf
        }),
    decreases k,
{
    if k > 0 {
        lemma_nodes(t, (k - 1) as nat, path);
        assert(elements_of(t)[k as int] == element(t.columns[k - 1]));
        assert(column_ok(t.columns[k - 1]));
        reveal_with_fuel(node_at, 2);
        reveal_with_fuel(nodes_at, 2);
    }
}

proof fn lemma_leaves(t: Table, s: Seq<SchemaElementView>, k: nat)
    requires
        schema_ok(t),
        k <= t.columns.len(),
        s == elements_of(t).take((k + 1) as int),
    ensures
        leaves_of(s) == Seq::new(k, |c: int| element(t.columns[c]).leaf()),
    decreases k,
{
    let want = Seq::new(k, |c: int| element(t.columns[c]).leaf());
    if k == 0 {
        assert(s.drop_last() =~= Seq::<SchemaElementView>::empty());
        assert(leaves_of(s.drop_last()) =~= Seq::<SchemaLeafView>::empty());
        assert(s.last() == element_of(Datum::Struct(t.root)));
        assert(leaves_of(s) =~= want);
    } else {
        let f = s.drop_last();
        assert(f =~= elements_of(t).take((k - 1) + 1));
        lemma_leaves(t, f, (k - 1) as nat);
        assert(s.last() == element(t.columns[k - 1]));
        assert(column_ok(t.columns[k - 1]));
        assert(leaves_of(s) =~= want);
    }
}

proof fn lemma_find(t: Table, leaves: Seq<SchemaLeafView>, from: int, c: int)
    requires
        schema_ok(t),
        0 <= from <= c < t.columns.len(),
        leaves == Seq::new(
            (t.columns.len() - from) as nat,
            |i: int| element(t.columns[from + i]).leaf(),
        ),
    ensures
        find_leaf(leaves, name_of(t.columns[c])) == Some(element(t.columns[c]).leaf()),
    decreases c - from,
{
    assert(leaves[0] == element(t.columns[from + 0]).leaf());
    assert(column_ok(t.columns[from]));
    assert(column_ok(t.columns[c]));
    if from < c {
        let rest = leaves.drop_first();
        assert(rest =~= Seq::new(
            (t.columns.len() - (from + 1)) as nat,
            |i: int| element(t.columns[from + 1 + i]).leaf(),
        )) by {
            assert forall|i: int| 0 <= i < rest.len() implies #[trigger] rest[i] == element(
                t.columns[from + 1 + i],
            ).leaf() by {
                assert(rest[i] == leaves[i + 1]);
            }
        }
        lemma_find(t, rest, from + 1, c);
    }
}

/// How a column of the table is read.
pub open spec fn source(t: Table, c: int) -> SourceView {
    SourceView::Leaf {
        name: name_of(t.columns[c]),
        spec: spec_of(t.columns[c]),
        ptype: Type::of(t.columns[c].ptype),
        max_def_level: max_def_of(t.columns[c]),
    }
}

proof fn lemma_schema(t: Table)
    requires
        schema_ok(t),
    ensures
        metadata_with(fields_of(t)).flat_schema,
        metadata_with(fields_of(t)).row_groups == fields_of(t).row_groups,
        forall|c: int|
            #![trigger t.columns[c]]
            0 <= c < t.columns.len() ==> source_of(
                metadata_with(fields_of(t)),
                name_of(t.columns[c]),
            ) == Ok::<SourceView, PqErrorView>(source(t, c)),
{
    let s = elements_of(t);
    let n = t.columns.len();
    lemma_nodes(t, n, seq![s[0].name]);
    lemma_used_up(s, 1, n, s.len(), 0, 0, seq![s[0].name]);
    assert(s[0] == element_of(Datum::Struct(t.root)));
    assert(s.take((n + 1) as int) =~= s);
    lemma_leaves(t, s, n);
    let md = metadata_with(fields_of(t));
    assert(is_flat(tree_of(s)));
    assert forall|c: int|
        #![trigger t.columns[c]]
        0 <= c < n implies source_of(md, name_of(t.columns[c])) == Ok::<SourceView, PqErrorView>(
        source(t, c),
    ) by {
        assert(md.leaves =~= Seq::new(
            (n - 0) as nat,
            |i: int| element(t.columns[0 + i]).leaf(),
        ));
        lemma_find(t, md.leaves, 0, c);
        assert(column_ok(t.columns[c]));
    }
}

/// A page does not depend on where its chunk says that it stands.
proof fn lemma_same_chunk(
    file: Seq<u8>,
    off: int,
    a: ColumnChunkView,
    b: ColumnChunkView,
    spec: PlainSpec,
    max_def: u32,
    dict: Seq<PqV>,
    cap: int,
)
    requires
        a.codec == b.codec,
        a.dictionary_page_offset is Some <==> b.dictionary_page_offset is Some,
    ensures
        flat_page_at(file, off, a, spec, max_def, dict, cap) == flat_page_at(
            file,
            off,
            b,
            spec,
            max_def,
            dict,
            cap,
        ),
{
}

proof fn lemma_same_pages(
    pages: Seq<Page>,
    a: ColumnChunkView,
    b: ColumnChunkView,
    spec: PlainSpec,
    max_def: u32,
    dict: Seq<PqV>,
    cap: int,
    k: nat,
)
    requires
        a.codec == b.codec,
        a.dictionary_page_offset is Some <==> b.dictionary_page_offset is Some,
    ensures
        pages_values(pages, a, spec, max_def, dict, cap, k) == pages_values(
            pages,
            b,
            spec,
            max_def,
            dict,
            cap,
            k,
        ),
    decreases k,
{
    if k > 0 {
        lemma_same_pages(pages, a, b, spec, max_def, dict, cap, (k - 1) as nat);
        lemma_same_chunk(page_form(pages[k - 1]), 0, a, b, spec, max_def, dict, cap);
    }
}

proof fn lemma_same_dictionary(
    page: Option<Page>,
    a: ColumnChunkView,
    b: ColumnChunkView,
    spec: PlainSpec,
    cap: int,
)
    requires
        a.codec == b.codec,
    ensures
        dictionary_of(page, a, spec, cap) == dictionary_of(page, b, spec, cap),
{
}

/// A part gives its values, wherever it stands.
proof fn lemma_part(file: Seq<u8>, at: i64, col: Column, part: Part, cap: int)
    requires
        file.len() <= usize::MAX,
        file.len() <= i64::MAX,
        stands(file, at as int, part_form(part)),
        column_ok(col),
        part_ok(col, part, cap),
    ensures
        chunk_values(file, chunk_view(col, part, at), spec_of(col), max_def_of(col), cap) == Ok::<
            Seq<PqV>,
            PqErrorView,
        >(part.values),
{
    let here = chunk_view(col, part, at);
    let alone = chunk_view(col, part, 0);
    let dict = dictionary_of(part.dict, alone, spec_of(col), cap)->Ok_0;
    lemma_stands(file, at as int, dict_form(part), pages_form(part.pages, part.pages.len()));
    lemma_same_dictionary(part.dict, here, alone, spec_of(col), cap);
    lemma_same_pages(
        part.pages,
        here,
        alone,
        spec_of(col),
        max_def_of(col),
        dict,
        cap,
        part.pages.len(),
    );
    assert(chunk_ready(here) is Ok) by {
        assert forall|i: int| 0 <= i < here.encodings.len() implies encoding_known(
            #[trigger] here.encodings[i],
        ) by {
            assert(encoding_known(Encoding::of(part.encodings[i])));
        }
    }
    law_chunk(
        file,
        here,
        part.dict,
        part.pages,
        spec_of(col),
        max_def_of(col),
        dict,
        part.values,
        cap,
    );
}

proof fn lemma_parts_form(file: Seq<u8>, p: int, parts: Seq<Part>, n: nat, c: nat)
    requires
        stands(file, p, parts_form(parts, n)),
        c < n,
    ensures
        stands(file, p + parts_form(parts, c).len(), part_form(parts[c as int])),
    decreases n,
{
    lemma_stands(file, p, parts_form(parts, (n - 1) as nat), part_form(parts[n - 1]));
    if c + 1 < n {
        lemma_parts_form(file, p, parts, (n - 1) as nat, c);
    }
}

proof fn lemma_groups_form(file: Seq<u8>, p: int, groups: Seq<Seq<Part>>, n: nat, g: nat)
    requires
        stands(file, p, groups_form(groups, n)),
        g < n,
    ensures
        stands(
            file,
            p + groups_form(groups, g).len(),
            parts_form(groups[g as int], groups[g as int].len()),
        ),
    decreases n,
{
    let last = groups[n - 1];
    lemma_stands(file, p, groups_form(groups, (n - 1) as nat), parts_form(last, last.len()));
    if g + 1 < n {
        lemma_groups_form(file, p, groups, (n - 1) as nat, g);
    }
}

/// The first chunk of a row group with the name of column `c` is that of column `c`.
proof fn lemma_named(t: Table, g: int, c: int, from: int)
    requires
        schema_ok(t),
        0 <= from <= c < t.columns.len(),
    ensures
        named_from(group_view(t, g).columns, name_of(t.columns[c]), from) == Some(
            chunk_view(t.columns[c], t.groups[g][c], part_at(t, g, c) as i64),
        ),
    decreases c - from,
{
    let columns = group_view(t, g).columns;
    assert(columns[from] == chunk_view(
        t.columns[from],
        t.groups[g][from],
        part_at(t, g, from) as i64,
    ));
    assert(columns[from].path.last() == name_of(t.columns[from]));
    if from < c {
        lemma_named(t, g, c, from + 1);
    }
}

/// Whether the row groups of a table are ones: each holds a part of each column, all of them of as
/// many values.
pub open spec fn groups_ok(t: Table, cap: int) -> bool {
    forall|g: int|
        #![trigger t.groups[g]]
        0 <= g < t.groups.len() ==> t.groups[g].len() == t.columns.len() && forall|c: int|
            #![trigger t.groups[g][c]]
            0 <= c < t.columns.len() ==> part_ok(t.columns[c], t.groups[g][c], cap)
                && t.groups[g][c].values.len() == group_rows(t.groups[g])
}

proof fn lemma_group_column(t: Table, file: Seq<u8>, cap: int, g: int, c: int)
    requires
        schema_ok(t),
        groups_ok(t, cap),
        0 <= g < t.groups.len(),
        0 <= c < t.columns.len(),
        file.len() <= usize::MAX,
        file.len() <= i64::MAX,
        stands(file, 4, groups_form(t.groups, t.groups.len())),
    ensures
        column_of(file, group_view(t, g), source(t, c), cap) == Ok::<Seq<PqV>, PqErrorView>(
            t.groups[g][c].values,
        ),
{
    let parts = t.groups[g];
    lemma_groups_form(file, 4, t.groups, t.groups.len(), g as nat);
    lemma_parts_form(
        file,
        4int + groups_form(t.groups, g as nat).len(),
        parts,
        parts.len(),
        c as nat,
    );
    assert(part_ok(t.columns[c], t.groups[g][c], cap));
    assert(column_ok(t.columns[c]));
    lemma_part(file, part_at(t, g, c) as i64, t.columns[c], parts[c], cap);
    lemma_named(t, g, c, 0);
}

/// The values of column `c` in the first `n` row groups.
pub open spec fn column_values(t: Table, c: int, n: nat) -> Seq<PqV>
    decreases n,
{
    if n == 0 {
        seq![]
    } else {
        column_values(t, c, (n - 1) as nat) + t.groups[n - 1][c].values
    }
}

proof fn lemma_column(t: Table, file: Seq<u8>, cap: int, c: int, n: nat)
    requires
        schema_ok(t),
        groups_ok(t, cap),
        0 <= c < t.columns.len(),
        n <= t.groups.len(),
        file.len() <= usize::MAX,
        file.len() <= i64::MAX,
        stands(file, 4, groups_form(t.groups, t.groups.len())),
    ensures
        column_in(file, fields_of(t).row_groups, n, source(t, c), cap) == Ok::<
            Seq<PqV>,
            PqErrorView,
        >(column_values(t, c, n)),
        column_values(t, c, n).len() == table_rows(t, n),
    decreases n,
{
    if n > 0 {
        lemma_column(t, file, cap, c, (n - 1) as nat);
        lemma_group_column(t, file, cap, n - 1, c);
        assert(t.groups[n - 1][c].values.len() == group_rows(t.groups[n - 1]));
    }
}

/// A part in one page of the first kind, with a dictionary page before it or without.
pub open spec fn one_page_part(
    codec: i32,
    encodings: Seq<i32>,
    dict: Option<Page>,
    page: Page,
    values: Seq<PqV>,
) -> Part {
    Part { codec, encodings, dict, pages: seq![page], values }
}

/// A page of the first kind stores a part, where its section expands to a payload that holds the
/// values.
pub proof fn law_one_page(
    col: Column,
    codec: i32,
    encodings: Seq<i32>,
    dict_page: Option<Page>,
    n: i32,
    encoding: i32,
    uncompressed: i32,
    section: Seq<u8>,
    payload: Seq<u8>,
    dict: Seq<PqV>,
    values: Seq<PqV>,
    cap: int,
)
    requires
        codec_known(Codec::of(codec)),
        forall|i: int|
            0 <= i < encodings.len() ==> encoding_known(Encoding::of(#[trigger] encodings[i])),
        dict_page matches Some(d) ==> page_ok(d),
        encoding == 2 || encoding == 8 ==> dict_page is Some,
        0 <= n,
        0 <= uncompressed <= cap,
        section.len() <= i32::MAX,
        section.len() <= cap,
        page_form(v1_page(n, encoding, uncompressed, section)).len() <= usize::MAX,
        expanded(Codec::of(codec), section, uncompressed as nat, page_words()) == Ok::<
            Seq<u8>,
            PqErrorView,
        >(payload),
        flat_page(payload, encoding, spec_of(col), n as nat, max_def_of(col), dict) == Ok::<
            Seq<PqV>,
            PqErrorView,
        >(values),
        values.len() <= usize::MAX,
        values.len() <= i64::MAX,
        ({
            let page = v1_page(n, encoding, uncompressed, section);
            let part = one_page_part(codec, encodings, dict_page, page, values);
            dictionary_of(dict_page, chunk_view(col, part, 0), spec_of(col), cap) == Ok::<
                Seq<PqV>,
                PqErrorView,
            >(dict)
        }),
    ensures
        ({
            let page = v1_page(n, encoding, uncompressed, section);
            part_ok(col, one_page_part(codec, encodings, dict_page, page, values), cap)
        }),
{
    let page = v1_page(n, encoding, uncompressed, section);
    let part = one_page_part(codec, encodings, dict_page, page, values);
    let cc = chunk_view(col, part, 0);
    law_v1_page(
        n,
        encoding,
        uncompressed,
        section,
        payload,
        cc,
        spec_of(col),
        max_def_of(col),
        0,
        dict,
        cap,
    );
    let pages = part.pages;
    assert(pages[0] == page);
    assert(pages_values(pages, cc, spec_of(col), max_def_of(col), dict, cap, 0) == Ok::<
        Seq<PqV>,
        PqErrorView,
    >(seq![]));
    assert(seq![] + values =~= values);
    assert(pages_values(pages, cc, spec_of(col), max_def_of(col), dict, cap, 1) == Ok::<
        Seq<PqV>,
        PqErrorView,
    >(values));
}

/// The metadata of a file is found between what stands before it and its length.
pub proof fn law_footer(body: Seq<u8>, record: Seq<u8>)
    requires
        record.len() < 0x1_0000_0000,
    ensures
        ({
            let file = MAGIC@ + (body + (record + (le_form(record.len(), 4) + MAGIC@)));
            &&& metadata_range(file) == Ok::<(int, int), PqErrorView>(
                (4int + body.len(), 4int + body.len() + record.len()),
            )
            &&& file.subrange(4int + body.len(), 4int + body.len() + record.len()) == record
            &&& stands(file, 4, body)
        }),
{
    let len = le_form(record.len(), 4);
    let file = MAGIC@ + (body + (record + (len + MAGIC@)));
    law_le(record.len(), 4);
    crate::bytes::lemma_pow256_values();
    assert(MAGIC@.len() == 4);
    let n = file.len() as int;
    assert(file.take(4) =~= MAGIC@);
    assert(file.skip(n - 4) =~= MAGIC@);
    assert(file.subrange(n - 8, n - 4) =~= len);
    assert(record.len() % 0x1_0000_0000 == record.len()) by (nonlinear_arith)
        requires
            record.len() < 0x1_0000_0000,
    ;
    assert(file.subrange(4int + body.len(), 4int + body.len() + record.len()) =~= record);
    assert(file.subrange(4, 4int + body.len()) =~= body);
}

/// Whether a table can be written: its schema and its row groups are ones, and the file is within
/// what a machine can address and a length can say.
pub open spec fn table_ok(t: Table, cap: int) -> bool {
    &&& schema_ok(t)
    &&& groups_ok(t, cap)
    &&& datum_ok(Datum::Struct(file_record(t)))
    &&& datum_form(Datum::Struct(file_record(t))).len() < 0x1_0000_0000
    &&& file_form(t).len() <= usize::MAX
    &&& file_form(t).len() <= i64::MAX
}

/// The names of the picked columns.
pub open spec fn picked(t: Table, picks: Seq<int>) -> Seq<Seq<char>> {
    Seq::new(picks.len(), |i: int| name_of(t.columns[picks[i]]))
}

/// The rows of the picked columns.
pub open spec fn picked_rows(t: Table, picks: Seq<int>) -> Seq<Seq<PqV>> {
    let n = t.groups.len();
    Seq::new(
        table_rows(t, n),
        |r: int| Seq::new(picks.len(), |i: int| column_values(t, picks[i], n)[r]),
    )
}

proof fn lemma_sources_picked(t: Table, md: FileMetaDataView, picks: Seq<int>, k: nat)
    requires
        k <= picks.len(),
        forall|i: int| 0 <= i < picks.len() ==> 0 <= #[trigger] picks[i] < t.columns.len(),
        forall|c: int|
            #![trigger t.columns[c]]
            0 <= c < t.columns.len() ==> source_of(md, name_of(t.columns[c])) == Ok::<
                SourceView,
                PqErrorView,
            >(source(t, c)),
    ensures
        sources_of(md, picked(t, picks), k) == Ok::<Seq<SourceView>, PqErrorView>(
            Seq::new(k, |i: int| source(t, picks[i])),
        ),
    decreases k,
{
    if k == 0 {
        assert(Seq::new(0, |i: int| source(t, picks[i])) =~= Seq::<SourceView>::empty());
    } else {
        let j = (k - 1) as nat;
        lemma_sources_picked(t, md, picks, j);
        assert(0 <= picks[j as int] < t.columns.len());
        assert(t.columns[picks[j as int]] == t.columns[picks[j as int]]);
        assert(Seq::new(j, |i: int| source(t, picks[i])).push(source(t, picks[j as int]))
            =~= Seq::new(k, |i: int| source(t, picks[i])));
    }
}

proof fn lemma_rows_picked(
    t: Table,
    file: Seq<u8>,
    md: FileMetaDataView,
    picks: Seq<int>,
    cap: int,
)
    requires
        schema_ok(t),
        groups_ok(t, cap),
        picks.len() > 0,
        forall|i: int| 0 <= i < picks.len() ==> 0 <= #[trigger] picks[i] < t.columns.len(),
        metadata_with(fields_of(t)) == md,
        file.len() <= usize::MAX,
        file.len() <= i64::MAX,
        stands(file, 4, groups_form(t.groups, t.groups.len())),
    ensures
        rows_in(file, md, picked(t, picks), cap) == Ok::<Seq<Seq<PqV>>, PqErrorView>(
            picked_rows(t, picks),
        ),
{
    lemma_schema(t);
    let k = picks.len();
    let n = t.groups.len();
    lemma_sources_picked(t, md, picks, k);
    let sources = Seq::new(k, |i: int| source(t, picks[i]));
    let groups = fields_of(t).row_groups;
    assert(groups.len() == n);
    assert forall|i: int| 0 <= i < k implies column_in(file, groups, n, #[trigger] sources[i], cap)
        == Ok::<Seq<PqV>, PqErrorView>(column_values(t, picks[i], n)) && column_values(
        t,
        picks[i],
        n,
    ).len() == table_rows(t, n) by {
        assert(0 <= picks[i] < t.columns.len());
        lemma_column(t, file, cap, picks[i], n);
    }
    lemma_columns(file, groups, n, sources, cap);
    let columns = columns_of(file, groups, n, sources, cap)->Ok_0;
    assert forall|i: int| 0 <= i < k implies #[trigger] columns[i] == column_values(t, picks[i], n)
        && columns[i].len() == table_rows(t, n) by {
        assert(column_in(file, groups, n, sources[i], cap) is Ok);
    }
    assert(row_count(columns) == table_rows(t, n)) by {
        assert(columns[0].len() == table_rows(t, n));
    }
    let rows = rows_of(columns)->Ok_0;
    assert(rows =~= picked_rows(t, picks)) by {
        assert forall|r: int| 0 <= r < rows.len() implies #[trigger] rows[r] == picked_rows(
            t,
            picks,
        )[r] by {
            assert(rows[r] =~= picked_rows(t, picks)[r]);
        }
    }
}

/// A flat table that was written is read back: whichever of its columns are wanted, in whatever
/// order, their rows come out as they went in, one row group after the other.
pub proof fn law_table(t: Table, picks: Seq<int>, cap: int)
    requires
        table_ok(t, cap),
        picks.len() > 0,
        forall|i: int| 0 <= i < picks.len() ==> 0 <= #[trigger] picks[i] < t.columns.len(),
    ensures
        extracted(file_form(t), picked(t, picks), cap) == Ok::<Seq<Seq<PqV>>, PqErrorView>(
            picked_rows(t, picks),
        ),
{
    let record = datum_form(Datum::Struct(file_record(t)));
    let body = groups_form(t.groups, t.groups.len());
    let file = file_form(t);
    law_footer(body, record);
    assert forall|c: int| 0 <= c < t.columns.len() implies element_fields_ok(
        (#[trigger] t.columns[c]).element,
    ) by {
        assert(column_ok(t.columns[c]));
    }
    lemma_file_record(t);
    law_metadata(file_record(t), seq![]);
    assert(record + seq![] =~= record);
    lemma_schema(t);
    lemma_rows_picked(t, file, metadata_with(fields_of(t)), picks, cap);
}

} // verus!
