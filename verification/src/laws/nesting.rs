//! Lists and maps: taking values apart and putting them together again.
use vstd::prelude::*;

use crate::assembly::{
    assembled, cell, cell_from, elements_at, ends_above, entries, entries_at, first_error,
    items_error, keys_error, next_start, node_at, presents, records_at, starts_entry, CellView,
    Items, Parts, Shape,
};
use crate::classify::level;
use crate::error::PqErrorView;
use crate::value::PqV;

verus! {

/// The definition level at which depth `k` is absent, if it can be.
pub open spec fn base(s: Shape, k: int) -> int
    decreases k,
{
    if k <= 0 {
        0
    } else {
        base(s, k - 1) + level(s.opts[k - 1]) + 1
    }
}

/// Whether the levels of a shape are those that its lists, maps and items ask for.
pub open spec fn shape_ok(s: Shape) -> bool {
    &&& s.opts.len() == s.maps.len()
    &&& s.max_def == base(s, s.opts.len() as int) + level(s.item_optional)
    &&& s.max_def <= u32::MAX
}

/// What a list or a map holds.
pub open spec fn children(v: PqV) -> Seq<PqV> {
    match v {
        PqV::List(e) => e,
        PqV::MapKv(e) => e.map_values(|x: (PqV, PqV)| x.1),
        _ => seq![],
    }
}

/// The keys of a map.
pub open spec fn own_keys(v: PqV) -> Seq<PqV> {
    match v {
        PqV::MapKv(e) => e.map_values(|x: (PqV, PqV)| x.0),
        _ => seq![],
    }
}

/// Whether a value at depth `k` has the shape.
pub open spec fn conforms(s: Shape, k: int, v: PqV) -> bool
    decreases s.opts.len() - k,
{
    if k < 0 || k >= s.opts.len() {
        v != PqV::Null || s.item_optional
    } else {
        &&& (v == PqV::Null ==> s.opts[k])
        &&& (v is List ==> !s.maps[k])
        &&& (v is MapKv ==> s.maps[k])
        &&& (v is Null || v is List || v is MapKv)
        &&& forall|i: int|
            0 <= i < children(v).len() ==> conforms(s, k + 1, #[trigger] children(v)[i])
    }
}

/// The repetition levels of a value at depth `k` whose first level is `r`.
pub open spec fn rep_of(s: Shape, k: int, v: PqV, r: int) -> Seq<u32>
    decreases s.opts.len() - k, 1int, 0int,
{
    if k < 0 || k >= s.opts.len() || children(v).len() == 0 {
        seq![r as u32]
    } else {
        rep_children(s, k, children(v), 0, r)
    }
}

/// The repetition levels of the elements from number `j` on of a list or map at depth `k`.
pub open spec fn rep_children(s: Shape, k: int, c: Seq<PqV>, j: int, r: int) -> Seq<u32>
    decreases s.opts.len() - k, 0int, c.len() - j,
{
    if k < 0 || k >= s.opts.len() || j < 0 || j >= c.len() {
        seq![]
    } else {
        rep_of(
            s,
            k + 1,
            c[j],
            if j == 0 {
                r
            } else {
                k + 1
            },
        ) + rep_children(s, k, c, j + 1, r)
    }
}

/// The definition levels of a value at depth `k`.
pub open spec fn def_of(s: Shape, k: int, v: PqV) -> Seq<u32>
    decreases s.opts.len() - k, 1int, 0int,
{
    if k < 0 || k >= s.opts.len() {
        seq![
            (if v == PqV::Null {
                s.max_def - 1
            } else {
                s.max_def
            }) as u32,
        ]
    } else if v == PqV::Null {
        seq![base(s, k) as u32]
    } else if children(v).len() == 0 {
        seq![(base(s, k) + level(s.opts[k])) as u32]
    } else {
        def_children(s, k, children(v), 0)
    }
}

/// The definition levels of the elements from number `j` on of a list or map at depth `k`.
pub open spec fn def_children(s: Shape, k: int, c: Seq<PqV>, j: int) -> Seq<u32>
    decreases s.opts.len() - k, 0int, c.len() - j,
{
    if k < 0 || k >= s.opts.len() || j < 0 || j >= c.len() {
        seq![]
    } else {
        def_of(s, k + 1, c[j]) + def_children(s, k, c, j + 1)
    }
}

/// The items of a value at depth `k`.
pub open spec fn items_of(s: Shape, k: int, v: PqV) -> Seq<PqV>
    decreases s.opts.len() - k, 1int, 0int,
{
    if k < 0 || k >= s.opts.len() {
        if v == PqV::Null {
            seq![]
        } else {
            seq![v]
        }
    } else {
        items_children(s, k, children(v), 0)
    }
}

/// The items of the elements from number `j` on of a list or map at depth `k`.
pub open spec fn items_children(s: Shape, k: int, c: Seq<PqV>, j: int) -> Seq<PqV>
    decreases s.opts.len() - k, 0int, c.len() - j,
{
    if k < 0 || k >= s.opts.len() || j < 0 || j >= c.len() {
        seq![]
    } else {
        items_of(s, k + 1, c[j]) + items_children(s, k, c, j + 1)
    }
}

/// The keys of the maps at depth `d` in a value at depth `k`.
pub open spec fn keys_of(s: Shape, k: int, v: PqV, d: int) -> Seq<PqV>
    decreases s.opts.len() - k, 1int, 0int,
{
    if k < 0 || k >= s.opts.len() || k > d {
        seq![]
    } else if k == d {
        own_keys(v)
    } else {
        keys_children(s, k, children(v), 0, d)
    }
}

/// The keys of the maps at depth `d` in the elements from number `j` on of a list or map at depth
/// `k`.
pub open spec fn keys_children(s: Shape, k: int, c: Seq<PqV>, j: int, d: int) -> Seq<PqV>
    decreases s.opts.len() - k, 0int, c.len() - j,
{
    if k < 0 || k >= s.opts.len() || j < 0 || j >= c.len() {
        seq![]
    } else {
        keys_of(s, k + 1, c[j], d) + keys_children(s, k, c, j + 1, d)
    }
}

proof fn lemma_base(s: Shape, j: int, k: int)
    requires
        0 <= j <= k <= s.opts.len(),
    ensures
        0 <= base(s, j) <= base(s, k),
        j < k ==> base(s, j) + level(s.opts[j]) < base(s, k),
    decreases k,
{
    if k > 0 {
        if j < k {
            lemma_base(s, j, k - 1);
        } else {
            lemma_base(s, j - 1, k - 1);
        }
    }
}

proof fn lemma_cell_reach(s: Shape, def: int, k: int)
    requires
        0 <= k <= s.opts.len(),
        def >= base(s, k),
    ensures
        cell(s, def) == cell_from(s, def, k, base(s, k)),
    decreases k,
{
    if k > 0 {
        lemma_base(s, k - 1, k);
        lemma_cell_reach(s, def, k - 1);
    }
}

/// What each definition level says.
proof fn lemma_cell(s: Shape, k: int)
    requires
        shape_ok(s),
        0 <= k <= s.opts.len(),
    ensures
        k < s.opts.len() && s.opts[k] ==> cell(s, base(s, k)) == CellView::Missing(k),
        k < s.opts.len() ==> cell(s, base(s, k) + level(s.opts[k])) == CellView::Empty(k),
        cell(s, s.max_def) is Present,
        s.item_optional ==> cell(s, s.max_def - 1) is Null,
        k < s.opts.len() ==> 0 <= base(s, k) && base(s, k) + level(s.opts[k]) <= s.max_def,
        s.item_optional ==> s.max_def >= 1,
        s.max_def >= 0,
{
    let n = s.opts.len() as int;
    lemma_base(s, k, n);
    lemma_cell_reach(s, s.max_def, n);
    if s.item_optional {
        lemma_cell_reach(s, s.max_def - 1, n);
    }
    if k < n {
        lemma_cell_reach(s, base(s, k), k);
        lemma_cell_reach(s, base(s, k) + level(s.opts[k]), k);
    }
}

proof fn lemma_lens(s: Shape, k: int, v: PqV, r: int)
    ensures
        rep_of(s, k, v, r).len() == def_of(s, k, v).len(),
        rep_of(s, k, v, r).len() >= 1,
    decreases s.opts.len() - k, 1int, 0int,
{
    if 0 <= k < s.opts.len() && children(v).len() > 0 {
        lemma_children_lens(s, k, children(v), 0, r);
    }
}

proof fn lemma_children_lens(s: Shape, k: int, c: Seq<PqV>, j: int, r: int)
    requires
        0 <= k < s.opts.len(),
        0 <= j <= c.len(),
    ensures
        rep_children(s, k, c, j, r).len() == def_children(s, k, c, j).len(),
        j < c.len() ==> rep_children(s, k, c, j, r).len() >= 1,
    decreases s.opts.len() - k, 0int, c.len() - j,
{
    if j < c.len() {
        lemma_lens(
            s,
            k + 1,
            c[j],
            if j == 0 {
                r
            } else {
                k + 1
            },
        );
        lemma_children_lens(s, k, c, j + 1, r);
    }
}

/// The first repetition level is the one given; the others are of the lists and maps inside.
proof fn lemma_rep(s: Shape, k: int, v: PqV, r: int)
    requires
        0 <= k <= s.opts.len() <= u32::MAX,
        0 <= r <= k,
    ensures
        rep_of(s, k, v, r)[0] == r,
        forall|i: int|
            1 <= i < rep_of(s, k, v, r).len() ==> k + 1 <= (#[trigger] rep_of(s, k, v, r)[i])
                <= s.opts.len(),
    decreases s.opts.len() - k, 1int, 0int,
{
    lemma_lens(s, k, v, r);
    if k < s.opts.len() && children(v).len() > 0 {
        lemma_rep_children(s, k, children(v), 0, r);
    }
}

proof fn lemma_rep_children(s: Shape, k: int, c: Seq<PqV>, j: int, r: int)
    requires
        0 <= k < s.opts.len() <= u32::MAX,
        0 <= r <= k,
        0 <= j <= c.len(),
    ensures
        j < c.len() ==> rep_children(s, k, c, j, r).len() >= 1 && rep_children(s, k, c, j, r)[0]
            == if j == 0 {
            r
        } else {
            k + 1
        },
        forall|i: int|
            1 <= i < rep_children(s, k, c, j, r).len() ==> k + 1 <= (#[trigger] rep_children(
                s,
                k,
                c,
                j,
                r,
            )[i]) <= s.opts.len(),
    decreases s.opts.len() - k, 0int, c.len() - j,
{
    if j < c.len() {
        let first = if j == 0 {
            r
        } else {
            k + 1
        };
        lemma_lens(s, k + 1, c[j], first);
        lemma_rep(s, k + 1, c[j], first);
        lemma_rep_children(s, k, c, j + 1, r);
        let x = rep_of(s, k + 1, c[j], first);
        let y = rep_children(s, k, c, j + 1, r);
        let z = rep_children(s, k, c, j, r);
        assert(z == x + y);
        assert forall|i: int| 1 <= i < z.len() implies k + 1 <= (#[trigger] z[i])
            <= s.opts.len() by {
            if i < x.len() {
                assert(z[i] == x[i]);
            } else {
                assert(z[i] == y[i - x.len()]);
            }
        }
    }
}

/// Whether a definition level can stand in a value at depth `k`.
spec fn fits(s: Shape, k: int, def: u32) -> bool {
    &&& def <= s.max_def
    &&& !ends_above(cell(s, def as int), k)
    &&& cell(s, def as int) is Null ==> s.item_optional
}

proof fn lemma_def(s: Shape, k: int, v: PqV)
    requires
        shape_ok(s),
        0 <= k <= s.opts.len(),
        conforms(s, k, v),
    ensures
        forall|i: int| 0 <= i < def_of(s, k, v).len() ==> fits(s, k, #[trigger] def_of(s, k, v)[i]),
    decreases s.opts.len() - k, 1int, 0int,
{
    lemma_cell(s, k);
    if k < s.opts.len() && children(v).len() > 0 {
        lemma_def_children(s, k, children(v), 0);
        let d = def_children(s, k, children(v), 0);
        assert forall|i: int| 0 <= i < d.len() implies fits(s, k, #[trigger] d[i]) by {
            assert(fits(s, k + 1, d[i]));
        }
    }
}

proof fn lemma_def_children(s: Shape, k: int, c: Seq<PqV>, j: int)
    requires
        shape_ok(s),
        0 <= k < s.opts.len(),
        0 <= j <= c.len(),
        forall|i: int| 0 <= i < c.len() ==> conforms(s, k + 1, #[trigger] c[i]),
    ensures
        forall|i: int|
            0 <= i < def_children(s, k, c, j).len() ==> fits(
                s,
                k + 1,
                #[trigger] def_children(s, k, c, j)[i],
            ),
    decreases s.opts.len() - k, 0int, c.len() - j,
{
    if j < c.len() {
        lemma_def(s, k + 1, c[j]);
        lemma_def_children(s, k, c, j + 1);
        let x = def_of(s, k + 1, c[j]);
        let y = def_children(s, k, c, j + 1);
        let z = def_children(s, k, c, j);
        assert(z == x + y);
        assert forall|i: int| 0 <= i < z.len() implies fits(s, k + 1, #[trigger] z[i]) by {
            if i < x.len() {
                assert(z[i] == x[i]);
            } else {
                assert(z[i] == y[i - x.len()]);
            }
        }
    }
}

/// Whether a position after the first goes on from the one before it.
spec fn joins(s: Shape, rep: Seq<u32>, def: Seq<u32>, i: int) -> bool {
    &&& !ends_above(cell(s, def[i - 1] as int), rep[i] as int)
    &&& !ends_above(cell(s, def[i] as int), rep[i] as int)
}

proof fn lemma_joins(s: Shape, k: int, v: PqV, r: int)
    requires
        shape_ok(s),
        0 <= k <= s.opts.len() <= u32::MAX,
        0 <= r <= k,
        conforms(s, k, v),
    ensures
        forall|i: int|
            1 <= i < rep_of(s, k, v, r).len() ==> #[trigger] joins(
                s,
                rep_of(s, k, v, r),
                def_of(s, k, v),
                i,
            ),
    decreases s.opts.len() - k, 1int, 0int,
{
    if k < s.opts.len() && children(v).len() > 0 {
        lemma_joins_children(s, k, children(v), 0, r);
        assert(v != PqV::Null);
        assert(rep_of(s, k, v, r) == rep_children(s, k, children(v), 0, r));
        assert(def_of(s, k, v) == def_children(s, k, children(v), 0));
    } else {
        assert(rep_of(s, k, v, r).len() == 1);
    }
}

proof fn lemma_joins_children(s: Shape, k: int, c: Seq<PqV>, j: int, r: int)
    requires
        shape_ok(s),
        0 <= k < s.opts.len() <= u32::MAX,
        0 <= r <= k,
        0 <= j <= c.len(),
        forall|i: int| 0 <= i < c.len() ==> conforms(s, k + 1, #[trigger] c[i]),
    ensures
        forall|i: int|
            1 <= i < rep_children(s, k, c, j, r).len() ==> #[trigger] joins(
                s,
                rep_children(s, k, c, j, r),
                def_children(s, k, c, j),
                i,
            ),
    decreases s.opts.len() - k, 0int, c.len() - j,
{
    if j < c.len() {
        let first = if j == 0 {
            r
        } else {
            k + 1
        };
        lemma_joins(s, k + 1, c[j], first);
        lemma_joins_children(s, k, c, j + 1, r);
        lemma_lens(s, k + 1, c[j], first);
        lemma_children_lens(s, k, c, j + 1, r);
        lemma_rep_children(s, k, c, j + 1, r);
        lemma_def(s, k + 1, c[j]);
        lemma_def_children(s, k, c, j + 1);
        let xr = rep_of(s, k + 1, c[j], first);
        let yr = rep_children(s, k, c, j + 1, r);
        let zr = rep_children(s, k, c, j, r);
        let xd = def_of(s, k + 1, c[j]);
        let yd = def_children(s, k, c, j + 1);
        let zd = def_children(s, k, c, j);
        assert(zr == xr + yr);
        assert(zd == xd + yd);
        let n = xr.len() as int;
        assert forall|i: int| 1 <= i < zr.len() implies #[trigger] joins(s, zr, zd, i) by {
            if i < n {
                assert(joins(s, xr, xd, i));
            } else if i == n {
                assert(zr[i] == yr[0]);
                assert(fits(s, k + 1, xd[n - 1]));
                assert(fits(s, k + 1, yd[0]));
            } else {
                assert(joins(s, yr, yd, i - n));
            }
        }
    }
}

/// Counting items goes on from one part of the levels to the next.
proof fn lemma_presents_window(s: Shape, def: Seq<u32>, a: int, n: nat)
    requires
        0 <= a,
        a + n <= def.len(),
    ensures
        presents(s, def, a + n) == presents(s, def, a) + presents(
            s,
            def.subrange(a, a + n),
            n as int,
        ),
    decreases n,
{
    if n > 0 {
        let m = (n - 1) as nat;
        lemma_presents_window(s, def, a, m);
        lemma_presents_prefix(s, def.subrange(a, a + n), def.subrange(a, a + m), m as int);
    }
}

proof fn lemma_presents_prefix(s: Shape, x: Seq<u32>, y: Seq<u32>, n: int)
    requires
        0 <= n <= x.len(),
        n <= y.len(),
        forall|i: int| 0 <= i < n ==> x[i] == y[i],
    ensures
        presents(s, x, n) == presents(s, y, n),
    decreases n,
{
    if n > 0 {
        lemma_presents_prefix(s, x, y, n - 1);
    }
}

proof fn lemma_presents_add(s: Shape, x: Seq<u32>, y: Seq<u32>)
    ensures
        presents(s, x + y, (x + y).len() as int) == presents(s, x, x.len() as int) + presents(
            s,
            y,
            y.len() as int,
        ),
{
    lemma_presents_window(s, x + y, x.len() as int, y.len());
    assert((x + y).subrange(x.len() as int, (x.len() + y.len()) as int) =~= y);
    lemma_presents_prefix(s, x + y, x, x.len() as int);
}

/// Counting entries goes on from one part of the levels to the next.
proof fn lemma_entries_window(s: Shape, rep: Seq<u32>, def: Seq<u32>, d: int, a: int, n: nat)
    requires
        0 <= a,
        a + n <= def.len(),
        rep.len() == def.len(),
    ensures
        entries(s, rep, def, d, a + n) == entries(s, rep, def, d, a) + entries(
            s,
            rep.subrange(a, a + n),
            def.subrange(a, a + n),
            d,
            n as int,
        ),
    decreases n,
{
    if n > 0 {
        let m = (n - 1) as nat;
        lemma_entries_window(s, rep, def, d, a, m);
        lemma_entries_prefix(
            s,
            rep.subrange(a, a + n),
            def.subrange(a, a + n),
            rep.subrange(a, a + m),
            def.subrange(a, a + m),
            d,
            m as int,
        );
    }
}

proof fn lemma_entries_prefix(
    s: Shape,
    xr: Seq<u32>,
    xd: Seq<u32>,
    yr: Seq<u32>,
    yd: Seq<u32>,
    d: int,
    n: int,
)
    requires
        0 <= n <= xr.len(),
        n <= yr.len(),
        xr.len() == xd.len(),
        yr.len() == yd.len(),
        forall|i: int| 0 <= i < n ==> xr[i] == yr[i] && xd[i] == yd[i],
    ensures
        entries(s, xr, xd, d, n) == entries(s, yr, yd, d, n),
    decreases n,
{
    if n > 0 {
        lemma_entries_prefix(s, xr, xd, yr, yd, d, n - 1);
        assert(xr[n - 1] == yr[n - 1] && xd[n - 1] == yd[n - 1]);
    }
}

proof fn lemma_entries_add(
    s: Shape,
    xr: Seq<u32>,
    xd: Seq<u32>,
    yr: Seq<u32>,
    yd: Seq<u32>,
    d: int,
)
    requires
        xr.len() == xd.len(),
        yr.len() == yd.len(),
    ensures
        entries(s, xr + yr, xd + yd, d, (xr + yr).len() as int) == entries(
            s,
            xr,
            xd,
            d,
            xr.len() as int,
        ) + entries(s, yr, yd, d, yr.len() as int),
{
    let a = xr.len() as int;
    let b = (xr.len() + yr.len()) as int;
    lemma_entries_window(s, xr + yr, xd + yd, d, a, yr.len());
    assert((xr + yr).subrange(a, b) =~= yr);
    assert((xd + yd).subrange(a, b) =~= yd);
    lemma_entries_prefix(s, xr + yr, xd + yd, xr, xd, d, a);
}

/// As many positions have their item as there are items.
proof fn lemma_items(s: Shape, k: int, v: PqV)
    requires
        shape_ok(s),
        0 <= k <= s.opts.len(),
        conforms(s, k, v),
    ensures
        presents(s, def_of(s, k, v), def_of(s, k, v).len() as int) == items_of(s, k, v).len(),
    decreases s.opts.len() - k, 1int, 0int,
{
    lemma_cell(s, k);
    reveal_with_fuel(presents, 2);
    if k < s.opts.len() && children(v).len() > 0 {
        lemma_items_children(s, k, children(v), 0);
    }
}

proof fn lemma_items_children(s: Shape, k: int, c: Seq<PqV>, j: int)
    requires
        shape_ok(s),
        0 <= k < s.opts.len(),
        0 <= j <= c.len(),
        forall|i: int| 0 <= i < c.len() ==> conforms(s, k + 1, #[trigger] c[i]),
    ensures
        presents(s, def_children(s, k, c, j), def_children(s, k, c, j).len() as int)
            == items_children(s, k, c, j).len(),
    decreases s.opts.len() - k, 0int, c.len() - j,
{
    if j < c.len() {
        lemma_items(s, k + 1, c[j]);
        lemma_items_children(s, k, c, j + 1);
        lemma_presents_add(s, def_of(s, k + 1, c[j]), def_children(s, k, c, j + 1));
    }
}

/// How many entries the lists or maps at depth `d` have in a value at depth `k`.
spec fn count_of(s: Shape, k: int, v: PqV, d: int) -> int
    decreases s.opts.len() - k, 1int, 0int,
{
    if k < 0 || k >= s.opts.len() || k > d {
        0
    } else if k == d {
        children(v).len() as int
    } else {
        count_children(s, k, children(v), 0, d)
    }
}

spec fn count_children(s: Shape, k: int, c: Seq<PqV>, j: int, d: int) -> int
    decreases s.opts.len() - k, 0int, c.len() - j,
{
    if k < 0 || k >= s.opts.len() || j < 0 || j >= c.len() {
        0
    } else {
        count_of(s, k + 1, c[j], d) + count_children(s, k, c, j + 1, d)
    }
}

proof fn lemma_one_entry(s: Shape, rep: Seq<u32>, def: Seq<u32>, d: int, n: int)
    requires
        1 <= n <= rep.len(),
        rep.len() == def.len(),
        starts_entry(s, rep, def, d, 0),
        forall|i: int| 1 <= i < rep.len() ==> (#[trigger] rep[i]) >= d + 2,
    ensures
        entries(s, rep, def, d, n) == 1,
    decreases n,
{
    reveal_with_fuel(entries, 2);
    if n > 1 {
        lemma_one_entry(s, rep, def, d, n - 1);
        assert(rep[n - 1] >= d + 2);
    }
}

/// As many positions start an entry at depth `d` as there are entries.
proof fn lemma_counts(s: Shape, k: int, v: PqV, r: int, d: int)
    requires
        shape_ok(s),
        0 <= k <= s.opts.len() <= u32::MAX,
        0 <= r <= k <= d + 1,
        d < s.opts.len(),
        conforms(s, k, v),
    ensures
        entries(s, rep_of(s, k, v, r), def_of(s, k, v), d, rep_of(s, k, v, r).len() as int)
            == if k == d + 1 {
            1
        } else {
            count_of(s, k, v, d)
        },
    decreases s.opts.len() - k, 1int, 0int,
{
    lemma_cell(s, k);
    lemma_lens(s, k, v, r);
    let rep = rep_of(s, k, v, r);
    let def = def_of(s, k, v);
    if k == d + 1 {
        lemma_rep(s, k, v, r);
        lemma_def(s, k, v);
        assert(fits(s, k, def[0]));
        lemma_one_entry(s, rep, def, d, rep.len() as int);
    } else if children(v).len() > 0 {
        assert(v != PqV::Null);
        lemma_counts_children(s, k, children(v), 0, r, d);
    } else {
        assert(rep =~= seq![r as u32]);
        reveal_with_fuel(entries, 2);
        assert(ends_above(cell(s, def[0] as int), d + 1));
        assert(!starts_entry(s, rep, def, d, 0));
    }
}

proof fn lemma_counts_children(s: Shape, k: int, c: Seq<PqV>, j: int, r: int, d: int)
    requires
        shape_ok(s),
        0 <= k < s.opts.len() <= u32::MAX,
        0 <= r <= k <= d,
        d < s.opts.len(),
        0 <= j <= c.len(),
        forall|i: int| 0 <= i < c.len() ==> conforms(s, k + 1, #[trigger] c[i]),
    ensures
        entries(
            s,
            rep_children(s, k, c, j, r),
            def_children(s, k, c, j),
            d,
            rep_children(s, k, c, j, r).len() as int,
        ) == if k == d {
            c.len() - j
        } else {
            count_children(s, k, c, j, d)
        },
    decreases s.opts.len() - k, 0int, c.len() - j,
{
    lemma_children_lens(s, k, c, j, r);
    if j < c.len() {
        let first = if j == 0 {
            r
        } else {
            k + 1
        };
        lemma_counts(s, k + 1, c[j], first, d);
        lemma_counts_children(s, k, c, j + 1, r, d);
        lemma_lens(s, k + 1, c[j], first);
        lemma_children_lens(s, k, c, j + 1, r);
        lemma_entries_add(
            s,
            rep_of(s, k + 1, c[j], first),
            def_of(s, k + 1, c[j]),
            rep_children(s, k, c, j + 1, r),
            def_children(s, k, c, j + 1),
            d,
        );
    }
}

/// A map at depth `d` has as many keys as entries.
proof fn lemma_keys(s: Shape, k: int, v: PqV, d: int)
    requires
        shape_ok(s),
        0 <= k <= d < s.opts.len(),
        s.maps[d],
        conforms(s, k, v),
    ensures
        keys_of(s, k, v, d).len() == count_of(s, k, v, d),
    decreases s.opts.len() - k, 1int, 0int,
{
    if k < d {
        lemma_keys_children(s, k, children(v), 0, d);
    }
}

proof fn lemma_keys_children(s: Shape, k: int, c: Seq<PqV>, j: int, d: int)
    requires
        shape_ok(s),
        0 <= k < d < s.opts.len(),
        s.maps[d],
        0 <= j <= c.len(),
        forall|i: int| 0 <= i < c.len() ==> conforms(s, k + 1, #[trigger] c[i]),
    ensures
        keys_children(s, k, c, j, d).len() == count_children(s, k, c, j, d),
    decreases s.opts.len() - k, 0int, c.len() - j,
{
    if j < c.len() {
        lemma_keys(s, k + 1, c[j], d);
        lemma_keys_children(s, k, c, j + 1, d);
    }
}

/// Whether the levels stand at position `a`.
spec fn here(p: Parts, a: int, rep: Seq<u32>, def: Seq<u32>) -> bool {
    &&& 0 <= a
    &&& a + rep.len() <= p.rep.len()
    &&& p.rep.len() == p.def.len()
    &&& rep.len() == def.len()
    &&& p.rep.subrange(a, a + rep.len()) == rep
    &&& p.def.subrange(a, a + rep.len()) == def
}

/// Whether the next items at position `a` are these.
spec fn feeds(p: Parts, a: int, items: Seq<PqV>) -> bool {
    match p.items {
        Items::Values(v) => {
            let i = presents(p.shape, p.def, a);
            0 <= i && i + items.len() <= v.len() && v.subrange(i, i + items.len()) == items
        },
        _ => false,
    }
}

/// Whether the next keys of depth `d` at position `a` are these.
spec fn feeds_keys(p: Parts, a: int, d: int, keys: Seq<PqV>) -> bool {
    let i = entries(p.shape, p.rep, p.def, d, a);
    0 <= i && i + keys.len() <= p.keys[d].len() && p.keys[d].subrange(i, i + keys.len()) == keys
}

proof fn lemma_here_split(
    p: Parts,
    a: int,
    xr: Seq<u32>,
    xd: Seq<u32>,
    yr: Seq<u32>,
    yd: Seq<u32>,
)
    requires
        here(p, a, xr + yr, xd + yd),
        xr.len() == xd.len(),
    ensures
        here(p, a, xr, xd),
        here(p, a + xr.len(), yr, yd),
{
    let n = xr.len() as int;
    let m = (xr + yr).len() as int;
    assert(p.rep.subrange(a, a + n) =~= p.rep.subrange(a, a + m).subrange(0, n));
    assert((xr + yr).subrange(0, n) =~= xr);
    assert(p.def.subrange(a, a + n) =~= p.def.subrange(a, a + m).subrange(0, n));
    assert((xd + yd).subrange(0, n) =~= xd);
    assert(p.rep.subrange(a + n, a + m) =~= p.rep.subrange(a, a + m).subrange(n, m));
    assert((xr + yr).subrange(n, m) =~= yr);
    assert(p.def.subrange(a + n, a + m) =~= p.def.subrange(a, a + m).subrange(n, m));
    assert((xd + yd).subrange(n, m) =~= yd);
}

proof fn lemma_split(v: Seq<PqV>, i: int, x: Seq<PqV>, y: Seq<PqV>)
    requires
        0 <= i,
        i + (x + y).len() <= v.len(),
        v.subrange(i, i + (x + y).len()) == x + y,
    ensures
        v.subrange(i, i + x.len()) == x,
        v.subrange(i + x.len(), i + x.len() + y.len()) == y,
{
    let w = v.subrange(i, i + (x + y).len());
    assert(v.subrange(i, i + x.len()) =~= w.subrange(0, x.len() as int));
    assert((x + y).subrange(0, x.len() as int) =~= x);
    assert(v.subrange(i + x.len(), i + x.len() + y.len()) =~= w.subrange(
        x.len() as int,
        (x + y).len() as int,
    ));
    assert((x + y).subrange(x.len() as int, (x + y).len() as int) =~= y);
}

/// Behind a value the items go on with those that follow.
proof fn lemma_feeds_split(p: Parts, k: int, v: PqV, r: int, a: int, more: Seq<PqV>)
    requires
        shape_ok(p.shape),
        0 <= k <= p.shape.opts.len(),
        conforms(p.shape, k, v),
        here(p, a, rep_of(p.shape, k, v, r), def_of(p.shape, k, v)),
        feeds(p, a, items_of(p.shape, k, v) + more),
    ensures
        feeds(p, a, items_of(p.shape, k, v)),
        feeds(p, a + rep_of(p.shape, k, v, r).len(), more),
{
    let s = p.shape;
    let n = rep_of(s, k, v, r).len();
    lemma_presents_window(s, p.def, a, n);
    lemma_items(s, k, v);
    match p.items {
        Items::Values(vals) => {
            lemma_split(vals, presents(s, p.def, a), items_of(s, k, v), more);
        },
        _ => {},
    }
}

/// Behind a value the keys of a deeper map go on with those that follow.
proof fn lemma_feeds_keys_split(
    p: Parts,
    k: int,
    v: PqV,
    r: int,
    a: int,
    d: int,
    more: Seq<PqV>,
)
    requires
        shape_ok(p.shape),
        0 <= r <= k <= d < p.shape.opts.len() <= u32::MAX,
        p.shape.maps[d],
        conforms(p.shape, k, v),
        here(p, a, rep_of(p.shape, k, v, r), def_of(p.shape, k, v)),
        feeds_keys(p, a, d, keys_of(p.shape, k, v, d) + more),
    ensures
        feeds_keys(p, a, d, keys_of(p.shape, k, v, d)),
        feeds_keys(p, a + rep_of(p.shape, k, v, r).len(), d, more),
{
    let s = p.shape;
    let n = rep_of(s, k, v, r).len();
    lemma_entries_window(s, p.rep, p.def, d, a, n);
    lemma_counts(s, k, v, r, d);
    lemma_keys(s, k, v, d);
    lemma_split(
        p.keys[d],
        entries(s, p.rep, p.def, d, a),
        keys_of(s, k, v, d),
        more,
    );
}

proof fn lemma_next(rep: Seq<u32>, k: int, a: int, e: int, b: int)
    requires
        0 <= a < e <= b <= rep.len(),
        forall|i: int| a < i < e ==> (#[trigger] rep[i]) > k,
        e < b ==> rep[e] <= k,
    ensures
        next_start(rep, k, a, b) == e,
    decreases e - a,
{
    if a + 1 < e {
        assert(rep[a + 1] > k);
        lemma_next(rep, k, a + 1, e, b);
    }
}

/// The first element from number `j` on ends where the next one starts.
proof fn lemma_next_child(p: Parts, k: int, c: Seq<PqV>, j: int, r: int, a: int)
    requires
        shape_ok(p.shape),
        0 <= r <= k < p.shape.opts.len() <= u32::MAX,
        0 <= j < c.len(),
        here(p, a, rep_children(p.shape, k, c, j, r), def_children(p.shape, k, c, j)),
    ensures
        ({
            let first = if j == 0 {
                r
            } else {
                k + 1
            };
            let n = rep_of(p.shape, k + 1, c[j], first).len();
            &&& n >= 1
            &&& here(p, a, rep_of(p.shape, k + 1, c[j], first), def_of(p.shape, k + 1, c[j]))
            &&& here(
                p,
                a + n,
                rep_children(p.shape, k, c, j + 1, r),
                def_children(p.shape, k, c, j + 1),
            )
            &&& next_start(
                p.rep,
                k + 1,
                a,
                a + rep_children(p.shape, k, c, j, r).len(),
            ) == a + n
            &&& n <= rep_children(p.shape, k, c, j, r).len()
        }),
{
    let s = p.shape;
    let first = if j == 0 {
        r
    } else {
        k + 1
    };
    let x = rep_of(s, k + 1, c[j], first);
    let y = rep_children(s, k, c, j + 1, r);
    let n = x.len() as int;
    let b = a + rep_children(s, k, c, j, r).len();
    lemma_lens(s, k + 1, c[j], first);
    lemma_here_split(
        p,
        a,
        x,
        def_of(s, k + 1, c[j]),
        y,
        def_children(s, k, c, j + 1),
    );
    lemma_rep(s, k + 1, c[j], first);
    lemma_rep_children(s, k, c, j + 1, r);
    assert forall|i: int| a < i < a + n implies (#[trigger] p.rep[i]) > k + 1 by {
        assert(p.rep[i] == p.rep.subrange(a, a + n)[i - a]);
    }
    if a + n < b {
        assert(y.len() > 0);
        assert(j + 1 < c.len()) by {
            if j + 1 >= c.len() {
                assert(y.len() == 0);
            }
        }
        assert(p.rep[a + n] == p.rep.subrange(a + n, a + n + y.len())[0]);
    }
    lemma_next(p.rep, k + 1, a, a + n, b);
}

/// Whether what a value at depth `k` was taken apart into stands at position `a`.
spec fn stands(p: Parts, k: int, v: PqV, r: int, a: int) -> bool {
    &&& here(p, a, rep_of(p.shape, k, v, r), def_of(p.shape, k, v))
    &&& feeds(p, a, items_of(p.shape, k, v))
    &&& forall|d: int|
        k <= d < p.shape.opts.len() && p.shape.maps[d] ==> #[trigger] feeds_keys(
            p,
            a,
            d,
            keys_of(p.shape, k, v, d),
        )
}

/// The same of the elements from number `j` on of a list or map at depth `k`.
spec fn children_stand(p: Parts, k: int, c: Seq<PqV>, j: int, r: int, a: int) -> bool {
    &&& here(p, a, rep_children(p.shape, k, c, j, r), def_children(p.shape, k, c, j))
    &&& feeds(p, a, items_children(p.shape, k, c, j))
    &&& forall|d: int|
        k < d < p.shape.opts.len() && p.shape.maps[d] ==> #[trigger] feeds_keys(
            p,
            a,
            d,
            keys_children(p.shape, k, c, j, d),
        )
}

/// The first element stands where the elements stand, and the others behind it.
proof fn lemma_child_stands(p: Parts, k: int, c: Seq<PqV>, j: int, r: int, a: int)
    requires
        shape_ok(p.shape),
        0 <= r <= k < p.shape.opts.len() <= u32::MAX,
        0 <= j < c.len(),
        forall|i: int| 0 <= i < c.len() ==> conforms(p.shape, k + 1, #[trigger] c[i]),
        children_stand(p, k, c, j, r, a),
    ensures
        ({
            let first = if j == 0 {
                r
            } else {
                k + 1
            };
            &&& stands(p, k + 1, c[j], first, a)
            &&& children_stand(
                p,
                k,
                c,
                j + 1,
                r,
                a + rep_of(p.shape, k + 1, c[j], first).len(),
            )
        }),
{
    let s = p.shape;
    let first = if j == 0 {
        r
    } else {
        k + 1
    };
    lemma_next_child(p, k, c, j, r, a);
    let n = rep_of(s, k + 1, c[j], first).len();
    lemma_feeds_split(p, k + 1, c[j], first, a, items_children(s, k, c, j + 1));
    assert forall|d: int| k < d < s.opts.len() && s.maps[d] implies #[trigger] feeds_keys(
        p,
        a,
        d,
        keys_of(s, k + 1, c[j], d),
    ) by {
        assert(feeds_keys(p, a, d, keys_children(s, k, c, j, d)));
        lemma_feeds_keys_split(
            p,
            k + 1,
            c[j],
            first,
            a,
            d,
            keys_children(s, k, c, j + 1, d),
        );
    }
    assert forall|d: int| k < d < s.opts.len() && s.maps[d] implies #[trigger] feeds_keys(
        p,
        a + n,
        d,
        keys_children(s, k, c, j + 1, d),
    ) by {
        assert(feeds_keys(p, a, d, keys_children(s, k, c, j, d)));
        lemma_feeds_keys_split(
            p,
            k + 1,
            c[j],
            first,
            a,
            d,
            keys_children(s, k, c, j + 1, d),
        );
    }
}

/// A value is put together from what it was taken apart into.
proof fn lemma_node(p: Parts, k: int, v: PqV, r: int, a: int)
    requires
        shape_ok(p.shape),
        0 <= r <= k <= p.shape.opts.len() <= u32::MAX,
        conforms(p.shape, k, v),
        stands(p, k, v, r, a),
    ensures
        node_at(p, k, a, a + rep_of(p.shape, k, v, r).len()) == v,
    decreases p.shape.opts.len() - k, 1int, 0int,
{
    let s = p.shape;
    let rep = rep_of(s, k, v, r);
    let def = def_of(s, k, v);
    let b = a + rep.len();
    lemma_cell(s, k);
    lemma_lens(s, k, v, r);
    assert(p.def[a] == p.def.subrange(a, a + rep.len())[0]);
    assert(p.def[a] == def[0]);
    if k == s.opts.len() {
        if v != PqV::Null {
            match p.items {
                Items::Values(vals) => {
                    let i = presents(s, p.def, a);
                    assert(vals.subrange(i, i + 1)[0] == v);
                },
                _ => {},
            }
        }
    } else if v == PqV::Null {
    } else if children(v).len() == 0 {
        match v {
            PqV::List(e) => {
                assert(e =~= Seq::<PqV>::empty());
            },
            PqV::MapKv(e) => {
                assert(e =~= Seq::<(PqV, PqV)>::empty());
            },
            _ => {},
        }
    } else {
        let c = children(v);
        assert(rep == rep_children(s, k, c, 0, r));
        assert(def == def_children(s, k, c, 0));
        lemma_def_children(s, k, c, 0);
        assert(fits(s, k + 1, def[0]));
        assert(children_stand(p, k, c, 0, r, a)) by {
            assert forall|d: int| k < d < s.opts.len() && s.maps[d] implies #[trigger] feeds_keys(
                p,
                a,
                d,
                keys_children(s, k, c, 0, d),
            ) by {
                assert(feeds_keys(p, a, d, keys_of(s, k, v, d)));
            }
        }
        match v {
            PqV::List(e) => {
                lemma_elements(p, k, c, 0, r, a);
                assert(c.skip(0) =~= e);
            },
            PqV::MapKv(e) => {
                assert(feeds_keys(p, a, k, keys_of(s, k, v, k)));
                assert(own_keys(v).skip(0) =~= own_keys(v));
                lemma_map_entries(p, k, e, 0, r, a);
                assert(e.skip(0) =~= e);
            },
            _ => {},
        }
    }
}

proof fn lemma_elements(p: Parts, k: int, c: Seq<PqV>, j: int, r: int, a: int)
    requires
        shape_ok(p.shape),
        0 <= r <= k < p.shape.opts.len() <= u32::MAX,
        0 <= j <= c.len(),
        forall|i: int| 0 <= i < c.len() ==> conforms(p.shape, k + 1, #[trigger] c[i]),
        children_stand(p, k, c, j, r, a),
    ensures
        elements_at(p, k, a, a + rep_children(p.shape, k, c, j, r).len()) == c.skip(j),
    decreases p.shape.opts.len() - k, 0int, c.len() - j,
{
    let b = a + rep_children(p.shape, k, c, j, r).len();
    if j == c.len() {
        assert(c.skip(j) =~= Seq::<PqV>::empty());
    } else {
        let first = if j == 0 {
            r
        } else {
            k + 1
        };
        let n = rep_of(p.shape, k + 1, c[j], first).len();
        lemma_next_child(p, k, c, j, r, a);
        lemma_child_stands(p, k, c, j, r, a);
        lemma_node(p, k + 1, c[j], first, a);
        lemma_elements(p, k, c, j + 1, r, a + n);
        assert(rep_children(p.shape, k, c, j, r).len() == n + rep_children(
            p.shape,
            k,
            c,
            j + 1,
            r,
        ).len());
        assert(c.skip(j) =~= seq![c[j]] + c.skip(j + 1));
    }
}

proof fn lemma_map_entries(p: Parts, k: int, e: Seq<(PqV, PqV)>, j: int, r: int, a: int)
    requires
        shape_ok(p.shape),
        0 <= r <= k < p.shape.opts.len() <= u32::MAX,
        0 <= j <= e.len(),
        forall|i: int|
            0 <= i < e.len() ==> conforms(
                p.shape,
                k + 1,
                #[trigger] children(PqV::MapKv(e))[i],
            ),
        children_stand(p, k, children(PqV::MapKv(e)), j, r, a),
        feeds_keys(p, a, k, own_keys(PqV::MapKv(e)).skip(j)),
    ensures
        entries_at(
            p,
            k,
            a,
            a + rep_children(p.shape, k, children(PqV::MapKv(e)), j, r).len(),
        ) == e.skip(j),
    decreases p.shape.opts.len() - k, 0int, e.len() - j,
{
    let s = p.shape;
    let c = children(PqV::MapKv(e));
    let keys = own_keys(PqV::MapKv(e));
    let b = a + rep_children(s, k, c, j, r).len();
    if j == e.len() {
        assert(e.skip(j) =~= Seq::<(PqV, PqV)>::empty());
    } else {
        let first = if j == 0 {
            r
        } else {
            k + 1
        };
        let n = rep_of(s, k + 1, c[j], first).len();
        lemma_next_child(p, k, c, j, r, a);
        lemma_child_stands(p, k, c, j, r, a);
        lemma_node(p, k + 1, c[j], first, a);
        lemma_entries_window(s, p.rep, p.def, k, a, n);
        lemma_counts(s, k + 1, c[j], first, k);
        let i = entries(s, p.rep, p.def, k, a);
        assert(keys.skip(j) =~= seq![keys[j]] + keys.skip(j + 1));
        lemma_split(p.keys[k], i, seq![keys[j]], keys.skip(j + 1));
        assert(p.keys[k][i] == p.keys[k].subrange(i, i + 1)[0]);
        lemma_map_entries(p, k, e, j + 1, r, a + n);
        assert(rep_children(s, k, c, j, r).len() == n + rep_children(s, k, c, j + 1, r).len());
        assert(e.skip(j) =~= seq![(keys[j], c[j])] + e.skip(j + 1));
    }
}

/// The repetition levels of the records from number `j` on.
pub open spec fn reps_from(s: Shape, rs: Seq<PqV>, j: int) -> Seq<u32>
    decreases rs.len() - j,
{
    if j < 0 || j >= rs.len() {
        seq![]
    } else {
        rep_of(s, 0, rs[j], 0) + reps_from(s, rs, j + 1)
    }
}

/// The definition levels of the records from number `j` on.
pub open spec fn defs_from(s: Shape, rs: Seq<PqV>, j: int) -> Seq<u32>
    decreases rs.len() - j,
{
    if j < 0 || j >= rs.len() {
        seq![]
    } else {
        def_of(s, 0, rs[j]) + defs_from(s, rs, j + 1)
    }
}

/// The items of the records from number `j` on.
pub open spec fn items_from(s: Shape, rs: Seq<PqV>, j: int) -> Seq<PqV>
    decreases rs.len() - j,
{
    if j < 0 || j >= rs.len() {
        seq![]
    } else {
        items_of(s, 0, rs[j]) + items_from(s, rs, j + 1)
    }
}

/// The keys of the maps at depth `d` in the records from number `j` on.
pub open spec fn keys_from(s: Shape, rs: Seq<PqV>, j: int, d: int) -> Seq<PqV>
    decreases rs.len() - j,
{
    if j < 0 || j >= rs.len() {
        seq![]
    } else {
        keys_of(s, 0, rs[j], d) + keys_from(s, rs, j + 1, d)
    }
}

/// Records taken apart.
pub open spec fn parts_of(s: Shape, rs: Seq<PqV>) -> Parts {
    Parts {
        shape: s,
        rep: reps_from(s, rs, 0),
        def: defs_from(s, rs, 0),
        keys: Seq::new(s.opts.len(), |d: int| keys_from(s, rs, 0, d)),
        items: Items::Values(items_from(s, rs, 0)),
    }
}

/// Whether position `i` is as it should be.
spec fn position_ok(s: Shape, rep: Seq<u32>, def: Seq<u32>, i: int) -> bool {
    &&& rep[i] <= s.opts.len()
    &&& fits(s, 0, def[i])
    &&& rep[i] > 0 ==> i >= 1 && joins(s, rep, def, i)
}

proof fn lemma_records(s: Shape, rs: Seq<PqV>, j: int)
    requires
        shape_ok(s),
        s.opts.len() <= u32::MAX,
        0 <= j <= rs.len(),
        forall|i: int| 0 <= i < rs.len() ==> conforms(s, 0, #[trigger] rs[i]),
    ensures
        reps_from(s, rs, j).len() == defs_from(s, rs, j).len(),
        forall|i: int|
            0 <= i < reps_from(s, rs, j).len() ==> #[trigger] position_ok(
                s,
                reps_from(s, rs, j),
                defs_from(s, rs, j),
                i,
            ),
        presents(s, defs_from(s, rs, j), defs_from(s, rs, j).len() as int) == items_from(
            s,
            rs,
            j,
        ).len(),
        forall|d: int|
            0 <= d < s.opts.len() && s.maps[d] ==> entries(
                s,
                reps_from(s, rs, j),
                defs_from(s, rs, j),
                d,
                reps_from(s, rs, j).len() as int,
            ) == (#[trigger] keys_from(s, rs, j, d)).len(),
        j < rs.len() ==> reps_from(s, rs, j).len() > 0 && reps_from(s, rs, j)[0] == 0,
    decreases rs.len() - j,
{
    if j < rs.len() {
        let v = rs[j];
        lemma_records(s, rs, j + 1);
        lemma_lens(s, 0, v, 0);
        lemma_rep(s, 0, v, 0);
        lemma_def(s, 0, v);
        lemma_joins(s, 0, v, 0);
        lemma_items(s, 0, v);
        let xr = rep_of(s, 0, v, 0);
        let xd = def_of(s, 0, v);
        let yr = reps_from(s, rs, j + 1);
        let yd = defs_from(s, rs, j + 1);
        let zr = reps_from(s, rs, j);
        let zd = defs_from(s, rs, j);
        let n = xr.len() as int;
        lemma_presents_add(s, xd, yd);
        assert forall|i: int| 0 <= i < zr.len() implies #[trigger] position_ok(s, zr, zd, i) by {
            if i == 0 {
                assert(zr[0] == xr[0]);
                assert(fits(s, 0, xd[0]));
            } else if i < n {
                assert(zr[i] == xr[i]);
                assert(joins(s, xr, xd, i));
                assert(fits(s, 0, xd[i]));
            } else {
                assert(position_ok(s, yr, yd, i - n));
            }
        }
        assert forall|d: int| 0 <= d < s.opts.len() && s.maps[d] implies entries(
            s,
            zr,
            zd,
            d,
            zr.len() as int,
        ) == (#[trigger] keys_from(s, rs, j, d)).len() by {
            lemma_counts(s, 0, v, 0, d);
            lemma_keys(s, 0, v, d);
            lemma_entries_add(s, xr, xd, yr, yd, d);
            assert(entries(s, yr, yd, d, yr.len() as int) == keys_from(s, rs, j + 1, d).len());
        }
    }
}

/// Whether the records from number `j` on stand at position `a`.
spec fn records_stand(p: Parts, rs: Seq<PqV>, j: int, a: int) -> bool {
    &&& here(p, a, reps_from(p.shape, rs, j), defs_from(p.shape, rs, j))
    &&& a + reps_from(p.shape, rs, j).len() == p.rep.len()
    &&& feeds(p, a, items_from(p.shape, rs, j))
    &&& forall|d: int|
        0 <= d < p.shape.opts.len() && p.shape.maps[d] ==> #[trigger] feeds_keys(
            p,
            a,
            d,
            keys_from(p.shape, rs, j, d),
        )
}

proof fn lemma_put_together(p: Parts, rs: Seq<PqV>, j: int, a: int)
    requires
        shape_ok(p.shape),
        p.shape.opts.len() <= u32::MAX,
        0 <= j <= rs.len(),
        forall|i: int| 0 <= i < rs.len() ==> conforms(p.shape, 0, #[trigger] rs[i]),
        records_stand(p, rs, j, a),
    ensures
        records_at(p, a) == rs.skip(j),
    decreases rs.len() - j,
{
    let s = p.shape;
    if j == rs.len() {
        assert(rs.skip(j) =~= Seq::<PqV>::empty());
    } else {
        let v = rs[j];
        let x = rep_of(s, 0, v, 0);
        let y = reps_from(s, rs, j + 1);
        let n = x.len() as int;
        lemma_lens(s, 0, v, 0);
        lemma_rep(s, 0, v, 0);
        lemma_records(s, rs, j + 1);
        lemma_here_split(p, a, x, def_of(s, 0, v), y, defs_from(s, rs, j + 1));
        lemma_feeds_split(p, 0, v, 0, a, items_from(s, rs, j + 1));
        assert forall|d: int| 0 <= d < s.opts.len() && s.maps[d] implies #[trigger] feeds_keys(
            p,
            a,
            d,
            keys_of(s, 0, v, d),
        ) by {
            assert(feeds_keys(p, a, d, keys_from(s, rs, j, d)));
            lemma_feeds_keys_split(p, 0, v, 0, a, d, keys_from(s, rs, j + 1, d));
        }
        assert forall|d: int| 0 <= d < s.opts.len() && s.maps[d] implies #[trigger] feeds_keys(
            p,
            a + n,
            d,
            keys_from(s, rs, j + 1, d),
        ) by {
            assert(feeds_keys(p, a, d, keys_from(s, rs, j, d)));
            lemma_feeds_keys_split(p, 0, v, 0, a, d, keys_from(s, rs, j + 1, d));
        }
        lemma_node(p, 0, v, 0, a);
        assert forall|i: int| a < i < a + n implies (#[trigger] p.rep[i]) > 0 by {
            assert(p.rep[i] == p.rep.subrange(a, a + n)[i - a]);
        }
        if a + n < p.rep.len() {
            assert(j + 1 < rs.len()) by {
                if j + 1 >= rs.len() {
                    assert(y.len() == 0);
                }
            }
            assert(p.rep[a + n] == p.rep.subrange(a + n, a + n + y.len())[0]);
        }
        lemma_next(p.rep, 0, a, a + n, p.rep.len() as int);
        lemma_put_together(p, rs, j + 1, a + n);
        assert(rs.skip(j) =~= seq![v] + rs.skip(j + 1));
    }
}

proof fn lemma_no_error(s: Shape, rep: Seq<u32>, def: Seq<u32>, i: int)
    requires
        0 <= i <= rep.len(),
        rep.len() == def.len(),
        forall|j: int| 0 <= j < rep.len() ==> #[trigger] position_ok(s, rep, def, j),
    ensures
        first_error(s, rep, def, i) is None,
    decreases rep.len() - i,
{
    if i < rep.len() {
        assert(position_ok(s, rep, def, i));
        lemma_no_error(s, rep, def, i + 1);
    }
}

proof fn lemma_no_key_error(p: Parts, k: int)
    requires
        0 <= k <= p.shape.opts.len(),
        forall|d: int|
            0 <= d < p.shape.opts.len() && p.shape.maps[d] ==> entries(
                p.shape,
                p.rep,
                p.def,
                d,
                p.rep.len() as int,
            ) == (#[trigger] p.keys[d]).len(),
    ensures
        keys_error(p, k) is None,
    decreases p.shape.opts.len() - k,
{
    if k < p.shape.opts.len() {
        if p.shape.maps[k] {
            assert(entries(p.shape, p.rep, p.def, k, p.rep.len() as int) == p.keys[k].len());
        }
        lemma_no_key_error(p, k + 1);
    }
}

/// Records of lists and maps, nested to any depth, are put together from what they were taken apart
/// into: nothing is lost, empty and absent lists are told apart, and so are absent and null items.
pub proof fn law_nested(s: Shape, rs: Seq<PqV>)
    requires
        shape_ok(s),
        s.opts.len() <= u32::MAX,
        forall|i: int| 0 <= i < rs.len() ==> conforms(s, 0, #[trigger] rs[i]),
    ensures
        assembled(parts_of(s, rs)) == Ok::<Seq<PqV>, PqErrorView>(rs),
{
    let p = parts_of(s, rs);
    lemma_records(s, rs, 0);
    lemma_no_error(s, p.rep, p.def, 0);
    assert forall|d: int| 0 <= d < s.opts.len() && s.maps[d] implies entries(
        s,
        p.rep,
        p.def,
        d,
        p.rep.len() as int,
    ) == (#[trigger] p.keys[d]).len() by {
        assert(p.keys[d] == keys_from(s, rs, 0, d));
    }
    lemma_no_key_error(p, 0);
    assert(items_error(p) is None);
    assert(records_stand(p, rs, 0, 0)) by {
        assert(p.rep.subrange(0, p.rep.len() as int) =~= p.rep);
        assert(p.def.subrange(0, p.def.len() as int) =~= p.def);
        let items = items_from(s, rs, 0);
        assert(items.subrange(0, items.len() as int) =~= items);
        assert forall|d: int| 0 <= d < s.opts.len() && s.maps[d] implies #[trigger] feeds_keys(
            p,
            0,
            d,
            keys_from(s, rs, 0, d),
        ) by {
            let keys = keys_from(s, rs, 0, d);
            assert(keys.subrange(0, keys.len() as int) =~= keys);
        }
    }
    lemma_put_together(p, rs, 0, 0);
    assert(rs.skip(0) =~= rs);
}

} // verus!
