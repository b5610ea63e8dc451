//! Whole files with a column of lists or of maps: what was written is read back.
use vstd::prelude::*;

use crate::assembly::Shape;
use crate::chunk::{chunk_levels, chunk_ready};
use crate::classify::{below_root, find_node, level, optional};
use crate::error::PqErrorView;
use crate::extract::{column_of, column_words, extracted, source_of, SourceView};
use crate::laws::fields::{datum_form, stands, Datum};
use crate::laws::files::{framed, joined_column, joined_rows, law_file, parts_read};
use crate::laws::lists::{law_list_column, law_map_column, levels_of, records_ok, Leaves};
use crate::laws::metadata::{file_after, file_fields_ok};
use crate::laws::nesting::{keys_from, reps_from};
use crate::laws::pages::{
    law_nested_chunk, nested_dictionary_of, page_form, page_ok, pages_form, pages_levels, Page,
};
use crate::laws::shapes::{law_list_schema, law_map_schema, stores_list, stores_map};
use crate::leaf::{find_leaf, plain_spec_of};
use crate::meta::{blank_file, metadata_with, ColumnChunkView, FileMetaDataView, RowGroupView};
use crate::nested::{located, located_pair, map_key_words, map_value_words, no_maps};
use crate::page::Levels;
use crate::plain::PlainSpec;
use crate::plan::{KindView, PlanView};
use crate::schema::{
    leaves_of, node_at, is_flat, SchemaElementView, SchemaNodeView,
};
use crate::value::PqV;

verus! {

/// What a row group stores of a leaf: its chunk, its dictionary page and what that holds, and its data
/// pages.
pub struct Store {
    pub cc: ColumnChunkView,
    pub dict: Option<Page>,
    pub dict_values: Seq<PqV>,
    pub pages: Seq<Page>,
}

/// Whether the file stores the levels and the values: the chunk is known and says where the pages
/// stand, and the pages, each of them alone, give them.
pub open spec fn stored(
    file: Seq<u8>,
    spec: PlainSpec,
    max_def: u32,
    store: Store,
    levels: Levels,
    cap: int,
) -> bool {
    let cc = store.cc;
    let n = store.pages.len();
    &&& chunk_ready(cc) is Ok
    &&& store.dict is Some <==> cc.dictionary_page_offset is Some
    &&& store.dict matches Some(d) ==> page_ok(d) && stands(
        file,
        cc.dictionary_page_offset->Some_0 as int,
        page_form(d),
    )
    &&& nested_dictionary_of(store.dict, cc, spec, cap) == Ok::<Seq<PqV>, PqErrorView>(
        store.dict_values,
    )
    &&& forall|k: int| 0 <= k < n ==> page_ok(#[trigger] store.pages[k])
    &&& stands(file, cc.data_page_offset as int, pages_form(store.pages, n))
    &&& pages_levels(store.pages, cc, spec, max_def, 1, store.dict_values, cap, n) == Ok::<
        Levels,
        PqErrorView,
    >(levels)
    &&& cc.num_values == levels.0.len()
    &&& levels.0.len() <= usize::MAX
}

proof fn lemma_stored(
    file: Seq<u8>,
    spec: PlainSpec,
    max_def: u32,
    store: Store,
    levels: Levels,
    cap: int,
)
    requires
        file.len() <= usize::MAX,
        stored(file, spec, max_def, store, levels, cap),
    ensures
        chunk_levels(file, store.cc, spec, max_def, 1, cap) == Ok::<Levels, PqErrorView>(levels),
{
    law_nested_chunk(
        file,
        store.cc,
        store.dict,
        store.pages,
        spec,
        max_def,
        1,
        store.dict_values,
        levels,
        cap,
    );
}

/// What a row group stores of a list column, and the lists that are stored so.
pub struct ListPart {
    pub leaf: Store,
    pub rows: Seq<PqV>,
}

/// How the leaf at `j` is read.
pub open spec fn spec_at(s: Seq<SchemaElementView>, j: int) -> PlainSpec {
    plain_spec_of(find_leaf(leaves_of(s), s[j].name)->Some_0)->Ok_0
}

/// The shape of the list at `i`.
pub open spec fn list_shape(s: Seq<SchemaElementView>, i: int) -> Shape {
    let o = optional(s[i].repetition);
    let e = optional(s[i + 2].repetition);
    Shape {
        opts: seq![o],
        maps: seq![false],
        max_def: level(o) + 1 + level(e),
        item_optional: e,
    }
}

/// Whether a part stores its lists in the file.
pub open spec fn list_part_ok(
    file: Seq<u8>,
    s: Seq<SchemaElementView>,
    i: int,
    part: ListPart,
    cap: int,
) -> bool {
    let shape = list_shape(s, i);
    &&& records_ok(shape, part.rows)
    &&& stored(
        file,
        spec_at(s, i + 2),
        shape.max_def as u32,
        part.leaf,
        levels_of(shape, part.rows),
        cap,
    )
}

/// The plan of the list at `i`, where `path` leads to it.
pub open spec fn plan_of_list(
    s: Seq<SchemaElementView>,
    i: int,
    path: Seq<Seq<char>>,
) -> PlanView {
    let leaf = s[i + 2];
    PlanView {
        chunk_path: below_root(path.push(s[i].name).push(s[i + 1].name).push(leaf.name)),
        kind: KindView::NestedListPrimitive {
            spec: spec_at(s, i + 2),
            ptype: leaf.ptype->Some_0,
            max_def_level: list_shape(s, i).max_def as u32,
            max_rep_level: 1,
            outer_optional: optional(s[i].repetition),
            element_optional: optional(leaf.repetition),
        },
    }
}

/// The records of the first `n` row groups, where `rows` are those of each.
pub open spec fn joined(rows: Seq<Seq<PqV>>, n: nat) -> Seq<PqV>
    decreases n,
{
    if n == 0 {
        seq![]
    } else {
        joined(rows, (n - 1) as nat) + rows[n - 1]
    }
}

/// The records of all row groups, each in a row of its own.
pub open spec fn single_rows(rows: Seq<Seq<PqV>>) -> Seq<Seq<PqV>> {
    joined(rows, rows.len()).map_values(|v: PqV| seq![v])
}

proof fn lemma_joined_single(rows: Seq<Seq<PqV>>, values: Seq<Seq<Seq<PqV>>>, n: nat)
    requires
        n <= rows.len(),
        values == Seq::new(rows.len(), |g: int| seq![rows[g]]),
    ensures
        joined_column(values, 0, n) == joined(rows, n),
        joined_rows(values, n) == joined(rows, n).len(),
    decreases n,
{
    if n > 0 {
        lemma_joined_single(rows, values, (n - 1) as nat);
        assert(values[n - 1] == seq![rows[n - 1]]);
    }
}

/// A single column of a file gives its records, one row group after the other, each in a row of its
/// own.
pub proof fn law_single_column(
    body: Seq<u8>,
    fields: Seq<(i16, Datum)>,
    md: FileMetaDataView,
    name: Seq<char>,
    source: SourceView,
    rows: Seq<Seq<PqV>>,
    cap: int,
)
    requires
        file_fields_ok(fields),
        datum_form(Datum::Struct(fields)).len() < 0x1_0000_0000,
        framed(body, fields).len() <= usize::MAX,
        metadata_with(file_after(blank_file(), fields, fields.len())) == md,
        source_of(md, name) == Ok::<SourceView, PqErrorView>(source),
        rows.len() == md.row_groups.len(),
        forall|g: int|
            0 <= g < rows.len() ==> column_of(
                framed(body, fields),
                md.row_groups[g],
                source,
                cap,
            ) == Ok::<Seq<PqV>, PqErrorView>(#[trigger] rows[g]),
    ensures
        extracted(framed(body, fields), seq![name], cap) == Ok::<Seq<Seq<PqV>>, PqErrorView>(
            single_rows(rows),
        ),
{
    let file = framed(body, fields);
    let record = datum_form(Datum::Struct(fields));
    assert(record.len() <= file.len());
    let wanted = seq![name];
    let sources = seq![source];
    let values = Seq::new(rows.len(), |g: int| seq![rows[g]]);
    assert(parts_read(file, md.row_groups, sources, values, cap)) by {
        assert forall|g: int, c: int|
            #![trigger values[g][c]]
            0 <= g < md.row_groups.len() && 0 <= c < sources.len() implies column_of(
            file,
            md.row_groups[g],
            sources[c],
            cap,
        ) == Ok::<Seq<PqV>, PqErrorView>(values[g][c]) && values[g][c].len() == values[g][0].len() by {
            assert(values[g] == seq![rows[g]]);
        }
    }
    law_file(body, fields, md, wanted, sources, values, cap);
    lemma_joined_single(rows, values, rows.len());
    let got = extracted(file, wanted, cap)->Ok_0;
    assert(got =~= single_rows(rows)) by {
        assert forall|r: int| 0 <= r < got.len() implies #[trigger] got[r] == single_rows(
            rows,
        )[r] by {
            assert(got[r] =~= single_rows(rows)[r]);
        }
    }
}

pub(crate) proof fn lemma_found(s: Seq<SchemaNodeView>, name: Seq<char>)
    ensures
        find_node(s, name) matches Some(n) ==> exists|j: int| 0 <= j < s.len() && s[j] == n,
    decreases s.len(),
{
    if s.len() > 0 {
        let rest = s.drop_first();
        lemma_found(rest, name);
        match find_node(s, name) {
            Some(n) => {
                if s[0] != n {
                    let j = choose|j: int| 0 <= j < rest.len() && rest[j] == n;
                    assert(s[j + 1] == n);
                }
            },
            None => {},
        }
    }
}

proof fn lemma_list_source(
    md: FileMetaDataView,
    s: Seq<SchemaElementView>,
    i: int,
    path: Seq<Seq<char>>,
)
    requires
        stores_list(s, i, leaves_of(s)),
        md.leaves == leaves_of(s),
        md.flat_schema == is_flat(md.root),
        md.root is Group,
        find_node(md.root->children, s[i].name) == Some(node_at(s, i, 0, 0, path).0),
    ensures
        source_of(md, s[i].name) == Ok::<SourceView, PqErrorView>(
            SourceView::Shape(plan_of_list(s, i, path)),
        ),
{
    law_list_schema(s, i, path, leaves_of(s));
    lemma_found(md.root->children, s[i].name);
    let node = node_at(s, i, 0, 0, path).0;
    let j = choose|j: int| 0 <= j < md.root->children.len() && md.root->children[j] == node;
    assert(!(md.root->children[j] is Leaf));
    assert(!md.flat_schema);
}

proof fn lemma_list_part(
    file: Seq<u8>,
    g: RowGroupView,
    s: Seq<SchemaElementView>,
    i: int,
    path: Seq<Seq<char>>,
    part: ListPart,
    cap: int,
)
    requires
        file.len() <= usize::MAX,
        stores_list(s, i, leaves_of(s)),
        list_part_ok(file, s, i, part, cap),
        located(
            g,
            plan_of_list(s, i, path).chunk_path,
            s[i + 2].ptype->Some_0,
            column_words(),
        ) == Ok::<ColumnChunkView, PqErrorView>(part.leaf.cc),
    ensures
        column_of(file, g, SourceView::Shape(plan_of_list(s, i, path)), cap) == Ok::<
            Seq<PqV>,
            PqErrorView,
        >(part.rows),
{
    let shape = list_shape(s, i);
    let spec = spec_at(s, i + 2);
    let levels = levels_of(shape, part.rows);
    lemma_stored(file, spec, shape.max_def as u32, part.leaf, levels, cap);
    assert(shape.maps =~= no_maps(1));
    law_list_column(file, part.leaf.cc, spec, shape, 1, part.rows, cap);
}

/// Lists of leaves that were written are read back from the file, one row group after the other:
/// absent and empty lists, and absent and null items, come out as they went in.
pub proof fn law_list_file(
    body: Seq<u8>,
    fields: Seq<(i16, Datum)>,
    md: FileMetaDataView,
    i: int,
    path: Seq<Seq<char>>,
    parts: Seq<ListPart>,
    cap: int,
)
    requires
        file_fields_ok(fields),
        datum_form(Datum::Struct(fields)).len() < 0x1_0000_0000,
        framed(body, fields).len() <= usize::MAX,
        metadata_with(file_after(blank_file(), fields, fields.len())) == md,
        ({
            let s = file_after(blank_file(), fields, fields.len()).elements;
            &&& stores_list(s, i, leaves_of(s))
            &&& md.root is Group
            &&& find_node(md.root->children, s[i].name) == Some(
                node_at(s, i, 0, 0, path).0,
            )
            &&& parts.len() == md.row_groups.len()
            &&& forall|g: int|
                #![trigger parts[g]]
                0 <= g < parts.len() ==> list_part_ok(framed(body, fields), s, i, parts[g], cap)
                    && located(
                    md.row_groups[g],
                    plan_of_list(s, i, path).chunk_path,
                    s[i + 2].ptype->Some_0,
                    column_words(),
                ) == Ok::<ColumnChunkView, PqErrorView>(parts[g].leaf.cc)
        }),
    ensures
        ({
            let s = file_after(blank_file(), fields, fields.len()).elements;
            let rows = Seq::new(parts.len(), |g: int| parts[g].rows);
            extracted(framed(body, fields), seq![s[i].name], cap) == Ok::<
                Seq<Seq<PqV>>,
                PqErrorView,
            >(single_rows(rows))
        }),
{
    let s = file_after(blank_file(), fields, fields.len()).elements;
    let file = framed(body, fields);
    let source = SourceView::Shape(plan_of_list(s, i, path));
    let rows = Seq::new(parts.len(), |g: int| parts[g].rows);
    lemma_list_source(md, s, i, path);
    assert forall|g: int| 0 <= g < rows.len() implies column_of(
        file,
        md.row_groups[g],
        source,
        cap,
    ) == Ok::<Seq<PqV>, PqErrorView>(#[trigger] rows[g]) by {
        assert(list_part_ok(file, s, i, parts[g], cap));
        lemma_list_part(file, md.row_groups[g], s, i, path, parts[g], cap);
    }
    law_single_column(body, fields, md, s[i].name, source, rows, cap);
}

/// What a row group stores of a map column, and the maps that are stored so.
pub struct MapPart {
    pub key: Store,
    pub key_defs: Seq<u32>,
    pub value: Store,
    pub rows: Seq<PqV>,
}

/// The shape of the map at `i`.
pub open spec fn map_shape(s: Seq<SchemaElementView>, i: int) -> Shape {
    let o = optional(s[i].repetition);
    let v = optional(s[i + 3].repetition);
    Shape {
        opts: seq![o],
        maps: seq![true],
        max_def: level(o) + 1 + level(v),
        item_optional: v,
    }
}

/// Whether a part stores its maps in the file.
pub open spec fn map_part_ok(
    file: Seq<u8>,
    s: Seq<SchemaElementView>,
    i: int,
    part: MapPart,
    cap: int,
) -> bool {
    let shape = map_shape(s, i);
    let max_def = shape.max_def as u32;
    &&& records_ok(shape, part.rows)
    &&& stored(
        file,
        spec_at(s, i + 2),
        (level(shape.opts[0]) + 1) as u32,
        part.key,
        (reps_from(shape, part.rows, 0), part.key_defs, keys_from(shape, part.rows, 0, 0)),
        cap,
    )
    &&& stored(
        file,
        spec_at(s, i + 3),
        max_def,
        part.value,
        levels_of(shape, part.rows),
        cap,
    )
}

/// Where the leaves of the map at `i` are found, and how they are read.
pub open spec fn map_leaves(
    s: Seq<SchemaElementView>,
    i: int,
    path: Seq<Seq<char>>,
) -> Leaves {
    let below = path.push(s[i].name).push(s[i + 1].name);
    Leaves {
        key_path: below_root(below.push(s[i + 2].name)),
        value_path: below_root(below.push(s[i + 3].name)),
        key_spec: spec_at(s, i + 2),
        value_spec: spec_at(s, i + 3),
        key_ptype: s[i + 2].ptype->Some_0,
        value_ptype: s[i + 3].ptype->Some_0,
    }
}

/// The plan of the map at `i`, where `path` leads to it.
pub open spec fn plan_of_map(s: Seq<SchemaElementView>, i: int, path: Seq<Seq<char>>) -> PlanView {
    let m = map_leaves(s, i, path);
    PlanView {
        chunk_path: m.value_path,
        kind: KindView::NestedMapKV {
            key_spec: m.key_spec,
            value_spec: m.value_spec,
            key_ptype: m.key_ptype,
            value_ptype: m.value_ptype,
            key_chunk_path: m.key_path,
            value_chunk_path: m.value_path,
            max_def_level: map_shape(s, i).max_def as u32,
            outer_optional: optional(s[i].repetition),
            value_optional: optional(s[i + 3].repetition),
        },
    }
}

proof fn lemma_map_source(
    md: FileMetaDataView,
    s: Seq<SchemaElementView>,
    i: int,
    path: Seq<Seq<char>>,
)
    requires
        stores_map(s, i, leaves_of(s)),
        md.leaves == leaves_of(s),
        md.flat_schema == is_flat(md.root),
        md.root is Group,
        find_node(md.root->children, s[i].name) == Some(node_at(s, i, 0, 0, path).0),
    ensures
        source_of(md, s[i].name) == Ok::<SourceView, PqErrorView>(
            SourceView::Shape(plan_of_map(s, i, path)),
        ),
{
    law_map_schema(s, i, path, leaves_of(s));
    lemma_found(md.root->children, s[i].name);
    let node = node_at(s, i, 0, 0, path).0;
    let j = choose|j: int| 0 <= j < md.root->children.len() && md.root->children[j] == node;
    assert(!(md.root->children[j] is Leaf));
    assert(!md.flat_schema);
}

/// Whether a row group holds the chunks of a part where the map's leaves are looked for.
pub open spec fn holds_map(
    g: RowGroupView,
    s: Seq<SchemaElementView>,
    i: int,
    path: Seq<Seq<char>>,
    part: MapPart,
) -> bool {
    let m = map_leaves(s, i, path);
    located_pair(
        g,
        m.key_path,
        m.key_ptype,
        m.value_path,
        m.value_ptype,
        map_key_words(),
        map_value_words(),
    ) == Ok::<(ColumnChunkView, ColumnChunkView), PqErrorView>((part.key.cc, part.value.cc))
}

proof fn lemma_map_part(
    file: Seq<u8>,
    g: RowGroupView,
    s: Seq<SchemaElementView>,
    i: int,
    path: Seq<Seq<char>>,
    part: MapPart,
    cap: int,
)
    requires
        file.len() <= usize::MAX,
        stores_map(s, i, leaves_of(s)),
        map_part_ok(file, s, i, part, cap),
        holds_map(g, s, i, path, part),
    ensures
        column_of(file, g, SourceView::Shape(plan_of_map(s, i, path)), cap) == Ok::<
            Seq<PqV>,
            PqErrorView,
        >(part.rows),
{
    let shape = map_shape(s, i);
    let m = map_leaves(s, i, path);
    let max_def = shape.max_def as u32;
    let keys = keys_from(shape, part.rows, 0, 0);
    let key_levels = (reps_from(shape, part.rows, 0), part.key_defs, keys);
    let key_max = (level(shape.opts[0]) + 1) as u32;
    lemma_stored(file, m.key_spec, key_max, part.key, key_levels, cap);
    lemma_stored(
        file,
        m.value_spec,
        max_def,
        part.value,
        levels_of(shape, part.rows),
        cap,
    );
    law_map_column(
        file,
        g,
        m,
        part.key.cc,
        part.value.cc,
        shape,
        part.key_defs,
        part.rows,
        cap,
    );
}

/// Maps of leaves that were written are read back from the file, one row group after the other:
/// absent and empty maps, and null values, come out as they went in, and entries in their order.
pub proof fn law_map_file(
    body: Seq<u8>,
    fields: Seq<(i16, Datum)>,
    md: FileMetaDataView,
    i: int,
    path: Seq<Seq<char>>,
    parts: Seq<MapPart>,
    cap: int,
)
    requires
        file_fields_ok(fields),
        datum_form(Datum::Struct(fields)).len() < 0x1_0000_0000,
        framed(body, fields).len() <= usize::MAX,
        metadata_with(file_after(blank_file(), fields, fields.len())) == md,
        ({
            let s = file_after(blank_file(), fields, fields.len()).elements;
            &&& stores_map(s, i, leaves_of(s))
            &&& md.root is Group
            &&& find_node(md.root->children, s[i].name) == Some(
                node_at(s, i, 0, 0, path).0,
            )
            &&& parts.len() == md.row_groups.len()
            &&& forall|g: int|
                #![trigger parts[g]]
                0 <= g < parts.len() ==> map_part_ok(framed(body, fields), s, i, parts[g], cap)
                    && holds_map(md.row_groups[g], s, i, path, parts[g])
        }),
    ensures
        ({
            let s = file_after(blank_file(), fields, fields.len()).elements;
            let rows = Seq::new(parts.len(), |g: int| parts[g].rows);
            extracted(framed(body, fields), seq![s[i].name], cap) == Ok::<
                Seq<Seq<PqV>>,
                PqErrorView,
            >(single_rows(rows))
        }),
{
    let s = file_after(blank_file(), fields, fields.len()).elements;
    let file = framed(body, fields);
    let source = SourceView::Shape(plan_of_map(s, i, path));
    let rows = Seq::new(parts.len(), |g: int| parts[g].rows);
    lemma_map_source(md, s, i, path);
    assert forall|g: int| 0 <= g < rows.len() implies column_of(
        file,
        md.row_groups[g],
        source,
        cap,
    ) == Ok::<Seq<PqV>, PqErrorView>(#[trigger] rows[g]) by {
        assert(map_part_ok(file, s, i, parts[g], cap));
        lemma_map_part(file, md.row_groups[g], s, i, path, parts[g], cap);
    }
    law_single_column(body, fields, md, s[i].name, source, rows, cap);
}

} // verus!
