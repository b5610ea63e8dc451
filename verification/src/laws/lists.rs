//! Columns of lists and of maps: the leaves give back the records.
use vstd::prelude::*;

use crate::assembly::{leaf_parts, Shape};
use crate::chunk::chunk_levels;
use crate::classify::level;
use crate::error::PqErrorView;
use crate::laws::nesting::{
    base, children, conforms, defs_from, items_from, keys_children, keys_from, keys_of, law_nested,
    parts_of, reps_from, shape_ok,
};
use crate::meta::{ColumnChunkView, RowGroupView};
use crate::nested::{
    levels_above, list_column, list_levels, lowered, list_of_map_column, list_of_map_key_words,
    list_of_map_value_words, located_pair, located_three, map_column, map_key_words,
    map_of_list_column, map_of_list_key_words, map_of_list_value_words, map_of_map_column,
    map_value_words, no_keys, no_maps, MapOfMap,
};
use crate::page::Levels;
use crate::plain::PlainSpec;
use crate::schema::Type;
use crate::value::PqV;

verus! {

/// A depth of lists has no keys.
proof fn lemma_no_keys(s: Shape, k: int, v: PqV, d: int)
    requires
        0 <= k <= s.opts.len(),
        0 <= d < s.opts.len(),
        !s.maps[d],
        conforms(s, k, v),
    ensures
        keys_of(s, k, v, d) == Seq::<PqV>::empty(),
    decreases s.opts.len() - k, 1int, 0int,
{
    if k < d {
        lemma_no_keys_below(s, k, children(v), 0, d);
    }
}

proof fn lemma_no_keys_below(s: Shape, k: int, c: Seq<PqV>, j: int, d: int)
    requires
        0 <= k < s.opts.len(),
        0 <= j <= c.len(),
        0 <= d < s.opts.len(),
        !s.maps[d],
        forall|i: int| 0 <= i < c.len() ==> conforms(s, k + 1, #[trigger] c[i]),
    ensures
        keys_children(s, k, c, j, d) == Seq::<PqV>::empty(),
    decreases s.opts.len() - k, 0int, c.len() - j,
{
    if j < c.len() {
        lemma_no_keys(s, k + 1, c[j], d);
        lemma_no_keys_below(s, k, c, j + 1, d);
    }
}

pub proof fn lemma_no_keys_in(s: Shape, rs: Seq<PqV>, j: int, d: int)
    requires
        0 <= j <= rs.len(),
        0 <= d < s.opts.len(),
        !s.maps[d],
        forall|i: int| 0 <= i < rs.len() ==> conforms(s, 0, #[trigger] rs[i]),
    ensures
        keys_from(s, rs, j, d) == Seq::<PqV>::empty(),
    decreases rs.len() - j,
{
    if j < rs.len() {
        lemma_no_keys(s, 0, rs[j], d);
        lemma_no_keys_in(s, rs, j + 1, d);
    }
}

/// The levels and the items that records are taken apart into.
pub open spec fn levels_of(s: Shape, rs: Seq<PqV>) -> Levels {
    (reps_from(s, rs, 0), defs_from(s, rs, 0), items_from(s, rs, 0))
}

/// Whether the records have the shape, whose levels are those its lists, maps and items ask for.
pub open spec fn records_ok(s: Shape, rs: Seq<PqV>) -> bool {
    &&& shape_ok(s)
    &&& s.opts.len() <= u32::MAX
    &&& 0 <= s.max_def <= u32::MAX
    &&& forall|i: int| 0 <= i < rs.len() ==> conforms(s, 0, #[trigger] rs[i])
}

proof fn lemma_list_levels(s: Shape, k: nat)
    requires
        k <= s.opts.len(),
    ensures
        list_levels(s.opts.take(k as int), s.item_optional) == base(s, k as int) + level(
            s.item_optional,
        ),
    decreases k,
{
    if k > 0 {
        lemma_list_levels(s, (k - 1) as nat);
        assert(s.opts.take(k as int).drop_last() =~= s.opts.take(k - 1));
    } else {
        assert(s.opts.take(0) =~= seq![]);
    }
}

proof fn lemma_outermost(s: Shape, t: Shape, k: int)
    requires
        1 <= k <= s.opts.len(),
        t.opts == s.opts.update(0, t.opts[0]),
    ensures
        base(t, k) == base(s, k) - level(s.opts[0]) + level(t.opts[0]),
    decreases k,
{
    reveal_with_fuel(base, 2);
    if k > 1 {
        lemma_outermost(s, t, k - 1);
    }
}

/// Whether the levels are those of lists that stand below others, where the first `top` levels are
/// those at which there is no list: any of these where the list is absent, and the list's own level
/// above them where it is there.
pub open spec fn below(def: Seq<u32>, top: int, own: Seq<u32>) -> bool {
    &&& def.len() == own.len()
    &&& forall|i: int|
        #![trigger own[i]]
        0 <= i < own.len() ==> if top == 0 {
            def[i] == own[i]
        } else if own[i] == 0 {
            def[i] < top
        } else {
            def[i] == own[i] + top - 1
        }
}

/// A column of lists that stand inside structs, of any depth, gives the records whose levels and
/// items its leaf stores. The first `top` levels are those at which there is no list, since it or a
/// struct around it is null: each such record is null.
pub proof fn law_inner_list_column(
    file: Seq<u8>,
    cc: ColumnChunkView,
    spec: PlainSpec,
    s: Shape,
    outer_optional: bool,
    top: int,
    max_rep: u32,
    rs: Seq<PqV>,
    def: Seq<u32>,
    cap: int,
)
    requires
        records_ok(s, rs),
        s.opts.len() > 0,
        s.maps == no_maps(s.opts.len()),
        level(outer_optional) <= top,
        s.opts[0] == (top > 0),
        s.max_def - level(s.opts[0]) + top <= u32::MAX,
        below(def, top, defs_from(s, rs, 0)),
        chunk_levels(
            file,
            cc,
            spec,
            (s.max_def - level(s.opts[0]) + top) as u32,
            max_rep,
            cap,
        ) == Ok::<Levels, PqErrorView>((reps_from(s, rs, 0), def, items_from(s, rs, 0))),
    ensures
        list_column(
            file,
            cc,
            spec,
            (s.max_def - level(s.opts[0]) + top) as u32,
            max_rep,
            s.opts.update(0, outer_optional),
            s.item_optional,
            cap,
        ) == Ok::<Seq<PqV>, PqErrorView>(rs),
{
    reveal(list_column);
    assert(lowered(def, top) =~= defs_from(s, rs, 0)) by {
        let own = defs_from(s, rs, 0);
        assert forall|i: int| 0 <= i < own.len() implies lowered(def, top)[i] == own[i] by {
            assert(own[i] == own[i]);
        }
    }
    law_nested(s, rs);
    let p = parts_of(s, rs);
    assert forall|d: int| 0 <= d < s.opts.len() implies #[trigger] p.keys[d] == Seq::<
        PqV,
    >::empty() by {
        assert(!s.maps[d]);
        lemma_no_keys_in(s, rs, 0, d);
    }
    assert(p.keys =~= no_keys(s.opts.len()));
    let opts = s.opts.update(0, outer_optional);
    let t = Shape { opts, ..s };
    let n = s.opts.len() as int;
    lemma_list_levels(t, n as nat);
    lemma_outermost(s, t, n);
    assert(opts.take(n) =~= opts);
    let max_def = (s.max_def - level(s.opts[0]) + top) as u32;
    assert(levels_above(max_def, opts, s.item_optional) + level(opts[0]) == top);
    assert(opts.update(0, top > 0) =~= s.opts);
    assert(leaf_parts(
        s.opts,
        s.maps,
        s.max_def as u32,
        s.item_optional,
        reps_from(s, rs, 0),
        lowered(def, top),
        no_keys(s.opts.len()),
        items_from(s, rs, 0),
    ) == p);
}

/// A column of lists, of any depth, gives the records whose levels and items its leaf stores.
pub proof fn law_list_column(
    file: Seq<u8>,
    cc: ColumnChunkView,
    spec: PlainSpec,
    s: Shape,
    max_rep: u32,
    rs: Seq<PqV>,
    cap: int,
)
    requires
        records_ok(s, rs),
        s.opts.len() > 0,
        s.maps == no_maps(s.opts.len()),
        chunk_levels(file, cc, spec, s.max_def as u32, max_rep, cap) == Ok::<Levels, PqErrorView>(
            levels_of(s, rs),
        ),
    ensures
        list_column(file, cc, spec, s.max_def as u32, max_rep, s.opts, s.item_optional, cap)
            == Ok::<Seq<PqV>, PqErrorView>(rs),
{
    let top = level(s.opts[0]);
    let def = defs_from(s, rs, 0);
    assert(s.opts.update(0, s.opts[0]) =~= s.opts);
    law_inner_list_column(file, cc, spec, s, s.opts[0], top, max_rep, rs, def, cap);
}

/// The leaves of a map: where each is found, how it is read, and its type.
pub struct Leaves {
    pub key_path: Seq<Seq<char>>,
    pub value_path: Seq<Seq<char>>,
    pub key_spec: PlainSpec,
    pub value_spec: PlainSpec,
    pub key_ptype: Type,
    pub value_ptype: Type,
}

/// A column of maps gives the records whose levels and values its value leaf stores, and whose keys
/// its key leaf stores, with the same repetition levels.
pub proof fn law_map_column(
    file: Seq<u8>,
    g: RowGroupView,
    m: Leaves,
    key: ColumnChunkView,
    value: ColumnChunkView,
    s: Shape,
    key_defs: Seq<u32>,
    rs: Seq<PqV>,
    cap: int,
)
    requires
        records_ok(s, rs),
        s.opts.len() == 1,
        s.maps == seq![true],
        located_pair(
            g,
            m.key_path,
            m.key_ptype,
            m.value_path,
            m.value_ptype,
            map_key_words(),
            map_value_words(),
        ) == Ok::<(ColumnChunkView, ColumnChunkView), PqErrorView>((key, value)),
        chunk_levels(
            file,
            key,
            m.key_spec,
            (s.max_def - level(s.item_optional)) as u32,
            1,
            cap,
        ) == Ok::<Levels, PqErrorView>(
            (reps_from(s, rs, 0), key_defs, keys_from(s, rs, 0, 0)),
        ),
        chunk_levels(file, value, m.value_spec, s.max_def as u32, 1, cap) == Ok::<
            Levels,
            PqErrorView,
        >(levels_of(s, rs)),
    ensures
        map_column(
            file,
            g,
            m.key_path,
            m.value_path,
            m.key_spec,
            m.value_spec,
            m.key_ptype,
            m.value_ptype,
            s.max_def as u32,
            s.opts[0],
            s.item_optional,
            cap,
        ) == Ok::<Seq<PqV>, PqErrorView>(rs),
{
    reveal(map_column);
    law_nested(s, rs);
    let p = parts_of(s, rs);
    let keys = keys_from(s, rs, 0, 0);
    assert(p.keys =~= seq![keys]);
    assert(s.opts =~= seq![s.opts[0]]);
    let l = levels_of(s, rs);
    assert(leaf_parts(
        seq![s.opts[0]],
        seq![true],
        s.max_def as u32,
        s.item_optional,
        l.0,
        l.1,
        seq![keys],
        l.2,
    ) == p);
}

/// A column of maps to lists gives the records whose levels and items its value leaf stores, and
/// whose keys its key leaf stores.
pub proof fn law_map_of_list_column(
    file: Seq<u8>,
    g: RowGroupView,
    m: Leaves,
    key: ColumnChunkView,
    value: ColumnChunkView,
    s: Shape,
    key_levels: (Seq<u32>, Seq<u32>),
    rs: Seq<PqV>,
    cap: int,
)
    requires
        records_ok(s, rs),
        s.opts.len() == 2,
        !s.opts[1],
        s.maps == seq![true, false],
        located_pair(
            g,
            m.key_path,
            m.key_ptype,
            m.value_path,
            m.value_ptype,
            map_of_list_key_words(),
            map_of_list_value_words(),
        ) == Ok::<(ColumnChunkView, ColumnChunkView), PqErrorView>((key, value)),
        chunk_levels(file, key, m.key_spec, (level(s.opts[0]) + 1) as u32, 1, cap) == Ok::<
            Levels,
            PqErrorView,
        >((key_levels.0, key_levels.1, keys_from(s, rs, 0, 0))),
        chunk_levels(file, value, m.value_spec, s.max_def as u32, 2, cap) == Ok::<
            Levels,
            PqErrorView,
        >(levels_of(s, rs)),
    ensures
        map_of_list_column(
            file,
            g,
            m.key_path,
            m.value_path,
            m.key_spec,
            m.value_spec,
            m.key_ptype,
            m.value_ptype,
            s.max_def as u32,
            s.opts[0],
            s.item_optional,
            cap,
        ) == Ok::<Seq<PqV>, PqErrorView>(rs),
{
    reveal(map_of_list_column);
    law_nested(s, rs);
    let p = parts_of(s, rs);
    let keys = keys_from(s, rs, 0, 0);
    assert(!s.maps[1]);
    lemma_no_keys_in(s, rs, 0, 1);
    assert(p.keys =~= seq![keys, Seq::empty()]);
    assert(s.opts =~= seq![s.opts[0], false]);
    let l = levels_of(s, rs);
    assert(leaf_parts(
        seq![s.opts[0], false],
        seq![true, false],
        s.max_def as u32,
        s.item_optional,
        l.0,
        l.1,
        seq![keys, Seq::empty()],
        l.2,
    ) == p);
}

/// A column of lists of maps gives the records whose levels and values its value leaf stores, and
/// whose keys its key leaf stores, with the same repetition levels.
pub proof fn law_list_of_map_column(
    file: Seq<u8>,
    g: RowGroupView,
    m: Leaves,
    key: ColumnChunkView,
    value: ColumnChunkView,
    s: Shape,
    key_defs: Seq<u32>,
    rs: Seq<PqV>,
    cap: int,
)
    requires
        records_ok(s, rs),
        s.opts.len() == 2,
        !s.opts[1],
        s.maps == seq![false, true],
        located_pair(
            g,
            m.key_path,
            m.key_ptype,
            m.value_path,
            m.value_ptype,
            list_of_map_key_words(),
            list_of_map_value_words(),
        ) == Ok::<(ColumnChunkView, ColumnChunkView), PqErrorView>((key, value)),
        chunk_levels(file, key, m.key_spec, (level(s.opts[0]) + 2) as u32, 2, cap) == Ok::<
            Levels,
            PqErrorView,
        >((reps_from(s, rs, 0), key_defs, keys_from(s, rs, 0, 1))),
        chunk_levels(file, value, m.value_spec, s.max_def as u32, 2, cap) == Ok::<
            Levels,
            PqErrorView,
        >(levels_of(s, rs)),
    ensures
        list_of_map_column(
            file,
            g,
            m.key_path,
            m.value_path,
            m.key_spec,
            m.value_spec,
            m.key_ptype,
            m.value_ptype,
            s.max_def as u32,
            s.opts[0],
            s.item_optional,
            cap,
        ) == Ok::<Seq<PqV>, PqErrorView>(rs),
{
    reveal(list_of_map_column);
    law_nested(s, rs);
    let p = parts_of(s, rs);
    let keys = keys_from(s, rs, 0, 1);
    assert(!s.maps[0]);
    lemma_no_keys_in(s, rs, 0, 0);
    assert(p.keys =~= seq![Seq::empty(), keys]);
    assert(s.opts =~= seq![s.opts[0], false]);
    let l = levels_of(s, rs);
    assert(leaf_parts(
        seq![s.opts[0], false],
        seq![false, true],
        s.max_def as u32,
        s.item_optional,
        l.0,
        l.1,
        seq![Seq::empty(), keys],
        l.2,
    ) == p);
}

/// A column of maps to maps gives the records whose levels and values its value leaf stores, and
/// whose inner and outer keys its key leaves store, the inner ones with the same repetition levels.
/// An inner key is there where its entry is, though the value may be null.
pub proof fn law_map_of_map_column(
    file: Seq<u8>,
    g: RowGroupView,
    m: MapOfMap,
    chunks: (ColumnChunkView, ColumnChunkView, ColumnChunkView),
    s: Shape,
    outer_levels: (Seq<u32>, Seq<u32>),
    inner_defs: Seq<u32>,
    rs: Seq<PqV>,
    cap: int,
)
    requires
        records_ok(s, rs),
        s.opts.len() == 2,
        !s.opts[1],
        s.maps == seq![true, true],
        located_three(g, m) == Ok::<
            (ColumnChunkView, ColumnChunkView, ColumnChunkView),
            PqErrorView,
        >(chunks),
        chunk_levels(file, chunks.0, m.outer_key_spec, (level(s.opts[0]) + 1) as u32, 1, cap) == Ok::<
            Levels,
            PqErrorView,
        >((outer_levels.0, outer_levels.1, keys_from(s, rs, 0, 0))),
        chunk_levels(file, chunks.1, m.inner_key_spec, (level(s.opts[0]) + 2) as u32, 2, cap) == Ok::<
            Levels,
            PqErrorView,
        >((reps_from(s, rs, 0), inner_defs, keys_from(s, rs, 0, 1))),
        chunk_levels(file, chunks.2, m.inner_value_spec, s.max_def as u32, 2, cap) == Ok::<
            Levels,
            PqErrorView,
        >(levels_of(s, rs)),
    ensures
        map_of_map_column(file, g, m, s.max_def as u32, s.opts[0], s.item_optional, cap) == Ok::<
            Seq<PqV>,
            PqErrorView,
        >(rs),
{
    reveal(map_of_map_column);
    law_nested(s, rs);
    let p = parts_of(s, rs);
    let outer = keys_from(s, rs, 0, 0);
    let inner = keys_from(s, rs, 0, 1);
    assert(p.keys =~= seq![outer, inner]);
    assert(s.opts =~= seq![s.opts[0], false]);
    let l = levels_of(s, rs);
    assert(leaf_parts(
        seq![s.opts[0], false],
        seq![true, true],
        s.max_def as u32,
        s.item_optional,
        l.0,
        l.1,
        seq![outer, inner],
        l.2,
    ) == p);
}

} // verus!
