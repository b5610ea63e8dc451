//! Putting values together into lists, maps and structs.
//!
//! A nested column is stored as one position for each item, each with two levels. The repetition
//! level says how many of the lists around the item go on from the position before; the definition
//! level says how far down the item is there at all.
use vstd::prelude::*;

use crate::classify::level;
use crate::error::{bad, PqError, PqErrorView};
use crate::plain::decodes;
use crate::text::texts;
use crate::value::{
    field_values, group_value_views, pair_values, values, PqV, PqValue,
};

verus! {

/// The lists and maps around an item, outermost first.
pub struct Shape {
    /// Whether the list or map may be absent.
    pub opts: Seq<bool>,
    /// Whether it is a map.
    pub maps: Seq<bool>,
    /// The definition level of an item that is there.
    pub max_def: int,
    /// Whether an item may be null.
    pub item_optional: bool,
}

/// How far down a position reaches.
pub enum CellView {
    /// The list or map at this depth is absent.
    Missing(int),
    /// The list or map at this depth is empty.
    Empty(int),
    /// The item is null.
    Null,
    /// The item is there.
    Present,
}

/// What the definition level `def` says of the depths from `k` on, where `base` is the level at
/// which depth `k` is absent if it can be.
pub open spec fn cell_from(s: Shape, def: int, k: int, base: int) -> CellView
    decreases s.opts.len() - k,
{
    if k < 0 || k >= s.opts.len() {
        if def == s.max_def {
            CellView::Present
        } else {
            CellView::Null
        }
    } else if s.opts[k] && def == base {
        CellView::Missing(k)
    } else if def == base + level(s.opts[k]) {
        CellView::Empty(k)
    } else {
        cell_from(s, def, k + 1, base + level(s.opts[k]) + 1)
    }
}

/// What a definition level says.
pub open spec fn cell(s: Shape, def: int) -> CellView {
    cell_from(s, def, 0, 0)
}

/// Whether a position ends above depth `r`.
pub open spec fn ends_above(c: CellView, r: int) -> bool {
    match c {
        CellView::Missing(k) => k < r,
        CellView::Empty(k) => k < r,
        _ => false,
    }
}

/// What is wrong with position `i`, if anything is.
pub open spec fn position_error(s: Shape, rep: Seq<u32>, def: Seq<u32>, i: int) -> Option<PqErrorView> {
    if rep[i] > s.opts.len() {
        Some(PqErrorView::Bad("nested: repetition level out of range"@))
    } else if def[i] > s.max_def {
        Some(PqErrorView::Bad("nested: definition level out of range"@))
    } else if cell(s, def[i] as int) is Null && !s.item_optional {
        Some(PqErrorView::Bad("nested: definition level implies null but item is REQUIRED"@))
    } else if rep[i] > 0 && (i == 0 || ends_above(cell(s, def[i - 1] as int), rep[i] as int)
        || ends_above(cell(s, def[i] as int), rep[i] as int)) {
        Some(PqErrorView::Bad("nested: repetition without an active list"@))
    } else {
        None
    }
}

/// What is wrong with the first bad position from `i` on.
pub open spec fn first_error(s: Shape, rep: Seq<u32>, def: Seq<u32>, i: int) -> Option<PqErrorView>
    decreases rep.len() - i,
{
    if i >= rep.len() {
        None
    } else {
        match position_error(s, rep, def, i) {
            Some(x) => Some(x),
            None => first_error(s, rep, def, i + 1),
        }
    }
}

/// How many of the first `i` positions have their item.
pub open spec fn presents(s: Shape, def: Seq<u32>, i: int) -> int
    decreases i,
{
    if i <= 0 {
        0
    } else {
        presents(s, def, i - 1) + if cell(s, def[i - 1] as int) is Present {
            1int
        } else {
            0
        }
    }
}

/// Whether position `i` starts an element or entry of the list or map at depth `k`.
pub open spec fn starts_entry(s: Shape, rep: Seq<u32>, def: Seq<u32>, k: int, i: int) -> bool {
    rep[i] <= k + 1 && !ends_above(cell(s, def[i] as int), k + 1)
}

/// How many of the first `i` positions start an element or entry at depth `k`.
pub open spec fn entries(s: Shape, rep: Seq<u32>, def: Seq<u32>, k: int, i: int) -> int
    decreases i,
{
    if i <= 0 {
        0
    } else {
        entries(s, rep, def, k, i - 1) + if starts_entry(s, rep, def, k, i - 1) {
            1int
        } else {
            0
        }
    }
}

/// Where the items come from.
pub enum Items {
    /// One value for each item that is there.
    Values(Seq<PqV>),
    /// A struct for each item, with its fields from the columns.
    Fields { names: Seq<Seq<char>>, columns: Seq<Seq<PqV>> },
}

/// A nested column taken apart.
pub struct Parts {
    pub shape: Shape,
    pub rep: Seq<u32>,
    pub def: Seq<u32>,
    /// For each depth the keys of its map.
    pub keys: Seq<Seq<PqV>>,
    pub items: Items,
}

/// The struct with number `j`, with its fields from the columns.
pub open spec fn struct_row(names: Seq<Seq<char>>, columns: Seq<Seq<PqV>>, j: int) -> Seq<
    (Seq<char>, PqV),
> {
    Seq::new(names.len(), |f: int| (names[f], columns[f][j]))
}

/// The item at position `i`.
pub open spec fn item_at(p: Parts, i: int) -> PqV {
    if cell(p.shape, p.def[i] as int) is Present {
        let j = presents(p.shape, p.def, i);
        match p.items {
            Items::Values(v) => v[j],
            Items::Fields { names, columns } => PqV::Struct(struct_row(names, columns, j)),
        }
    } else {
        PqV::Null
    }
}

/// The first position after `a`, before `b`, at which depth `k` or one above it starts anew.
pub open spec fn next_start(rep: Seq<u32>, k: int, a: int, b: int) -> int
    decreases b - a,
{
    if a + 1 >= b {
        b
    } else if rep[a + 1] <= k {
        a + 1
    } else {
        next_start(rep, k, a + 1, b)
    }
}

/// The list or map at depth `k` that the positions from `a` to `b` hold.
pub open spec fn node_at(p: Parts, k: int, a: int, b: int) -> PqV
    decreases p.shape.opts.len() - k, 1int, 0int,
{
    if k < 0 || k >= p.shape.opts.len() {
        item_at(p, a)
    } else {
        let c = cell(p.shape, p.def[a] as int);
        if c == CellView::Missing(k) {
            PqV::Null
        } else if p.shape.maps[k] {
            PqV::MapKv(
                if c == CellView::Empty(k) {
                    Seq::empty()
                } else {
                    entries_at(p, k, a, b)
                },
            )
        } else {
            PqV::List(
                if c == CellView::Empty(k) {
                    Seq::empty()
                } else {
                    elements_at(p, k, a, b)
                },
            )
        }
    }
}

/// The elements of the list at depth `k` that the positions from `a` to `b` hold.
pub open spec fn elements_at(p: Parts, k: int, a: int, b: int) -> Seq<PqV>
    decreases p.shape.opts.len() - k, 0int, b - a,
{
    let e = next_start(p.rep, k + 1, a, b);
    if a >= b || k < 0 || k >= p.shape.opts.len() || !(a < e <= b) {
        Seq::empty()
    } else {
        seq![node_at(p, k + 1, a, e)] + elements_at(p, k, e, b)
    }
}

/// The entries of the map at depth `k` that the positions from `a` to `b` hold.
pub open spec fn entries_at(p: Parts, k: int, a: int, b: int) -> Seq<(PqV, PqV)>
    decreases p.shape.opts.len() - k, 0int, b - a,
{
    let e = next_start(p.rep, k + 1, a, b);
    if a >= b || k < 0 || k >= p.shape.opts.len() || !(a < e <= b) {
        Seq::empty()
    } else {
        seq![
            (
                p.keys[k][entries(p.shape, p.rep, p.def, k, a)],
                node_at(p, k + 1, a, e),
            ),
        ] + entries_at(p, k, e, b)
    }
}

/// The records from position `a` on.
pub open spec fn records_at(p: Parts, a: int) -> Seq<PqV>
    decreases p.rep.len() - a,
{
    let e = next_start(p.rep, 0, a, p.rep.len() as int);
    if a >= p.rep.len() || !(a < e <= p.rep.len()) {
        Seq::empty()
    } else {
        seq![node_at(p, 0, a, e)] + records_at(p, e)
    }
}

/// What is wrong with the number of values `have`, where `want` are used.
pub open spec fn supply_error(
    want: int,
    have: int,
    exhausted: Seq<char>,
    left: Seq<char>,
) -> Option<PqErrorView> {
    if want > have {
        Some(PqErrorView::Bad(exhausted))
    } else if want < have {
        Some(PqErrorView::Bad(left))
    } else {
        None
    }
}

/// What is wrong with the keys of the maps from depth `k` on.
pub open spec fn keys_error(p: Parts, k: int) -> Option<PqErrorView>
    decreases p.shape.opts.len() - k,
{
    if k < 0 || k >= p.shape.opts.len() {
        None
    } else if p.shape.maps[k] {
        match supply_error(
            entries(p.shape, p.rep, p.def, k, p.rep.len() as int),
            p.keys[k].len() as int,
            "nested: key stream exhausted"@,
            "nested: keys not fully consumed"@,
        ) {
            Some(x) => Some(x),
            None => keys_error(p, k + 1),
        }
    } else {
        keys_error(p, k + 1)
    }
}

/// What is wrong with the field columns from number `f` on, where each is to have `n` values.
pub open spec fn columns_error(columns: Seq<Seq<PqV>>, n: int, f: int) -> Option<PqErrorView>
    decreases columns.len() - f,
{
    if f < 0 || f >= columns.len() {
        None
    } else if columns[f].len() != n {
        Some(PqErrorView::Bad("struct: field length mismatch"@))
    } else {
        columns_error(columns, n, f + 1)
    }
}

/// What is wrong with the names and number of the field columns.
pub open spec fn names_error(names: Seq<Seq<char>>, columns: Seq<Seq<PqV>>) -> Option<PqErrorView> {
    if names.len() != columns.len() {
        Some(PqErrorView::Bad("struct: field names and columns differ in number"@))
    } else if names.len() == 0 {
        Some(PqErrorView::Bad("struct: no fields"@))
    } else {
        None
    }
}

/// What is wrong with the items.
pub open spec fn items_error(p: Parts) -> Option<PqErrorView> {
    let n = presents(p.shape, p.def, p.rep.len() as int);
    match p.items {
        Items::Values(v) => supply_error(
            n,
            v.len() as int,
            "nested: value stream exhausted"@,
            "nested: values not fully consumed"@,
        ),
        Items::Fields { names, columns } => match names_error(names, columns) {
            Some(x) => Some(x),
            None => columns_error(columns, n, 0),
        },
    }
}

/// The records of a nested column.
pub open spec fn assembled(p: Parts) -> Result<Seq<PqV>, PqErrorView> {
    if p.rep.len() != p.def.len() {
        Err(PqErrorView::Bad("nested: repetition and definition levels differ in number"@))
    } else {
        match first_error(p.shape, p.rep, p.def, 0) {
            Some(x) => Err(x),
            None => match keys_error(p, 0) {
                Some(x) => Err(x),
                None => match items_error(p) {
                    Some(x) => Err(x),
                    None => Ok(records_at(p, 0)),
                },
            },
        }
    }
}

/// The lists and maps around an item, outermost first.
struct Nesting {
    opts: Vec<bool>,
    maps: Vec<bool>,
    max_def: u32,
    item_optional: bool,
}

impl Nesting {
    spec fn shape(self) -> Shape {
        Shape {
            opts: self.opts@,
            maps: self.maps@,
            max_def: self.max_def as int,
            item_optional: self.item_optional,
        }
    }

    spec fn wf(self) -> bool {
        self.opts@.len() == self.maps@.len() && 1 <= self.opts@.len() <= 3
    }
}

/// How far down a position reaches.
#[derive(Clone, Copy)]
enum Cell {
    Missing(usize),
    Empty(usize),
    Null,
    Present,
}

impl Cell {
    spec fn cell(self) -> CellView {
        match self {
            Cell::Missing(k) => CellView::Missing(k as int),
            Cell::Empty(k) => CellView::Empty(k as int),
            Cell::Null => CellView::Null,
            Cell::Present => CellView::Present,
        }
    }
}

fn cell_of(s: &Nesting, def: u32) -> (r: Cell)
    requires
        s.wf(),
    ensures
        r.cell() == cell(s.shape(), def as int),
{
    let mut k: usize = 0;
    let mut base: u32 = 0;
    while k < s.opts.len()
        invariant
            s.wf(),
            k <= s.opts@.len(),
            base <= 2 * k,
            cell(s.shape(), def as int) == cell_from(s.shape(), def as int, k as int, base as int),
        decreases s.opts@.len() - k,
    {
        if s.opts[k] {
            if def == base {
                return Cell::Missing(k);
            }
            base = base + 1;
        }
        if def == base {
            return Cell::Empty(k);
        }
        base = base + 1;
        k += 1;
    }
    if def == s.max_def {
        Cell::Present
    } else {
        Cell::Null
    }
}

fn cell_ends_above(c: Cell, r: usize) -> (b: bool)
    ensures
        b == ends_above(c.cell(), r as int),
{
    match c {
        Cell::Missing(k) => k < r,
        Cell::Empty(k) => k < r,
        _ => false,
    }
}

/// Where the items come from.
enum ItemSource<'a> {
    Values(&'a [PqValue]),
    Fields { names: &'a [String], columns: &'a [Vec<PqValue>] },
}

/// The values of a list of columns.
pub open spec fn column_values(s: Seq<Vec<PqValue>>) -> Seq<Seq<PqV>> {
    s.map_values(|c: Vec<PqValue>| values(c@))
}

impl<'a> ItemSource<'a> {
    spec fn items(self) -> Items {
        match self {
            ItemSource::Values(v) => Items::Values(values(v@)),
            ItemSource::Fields { names, columns } => Items::Fields {
                names: texts(names@),
                columns: column_values(columns@),
            },
        }
    }
}

spec fn key_values(s: Seq<&[PqValue]>) -> Seq<Seq<PqV>> {
    s.map_values(|c: &[PqValue]| values(c@))
}

/// A nested column taken apart, with what can be told of each position beforehand.
struct Job<'a> {
    nesting: Nesting,
    rep: &'a [u32],
    def: &'a [u32],
    keys: Vec<&'a [PqValue]>,
    items: ItemSource<'a>,
    cells: Vec<Cell>,
    value_index: Vec<usize>,
    key_index: Vec<Vec<usize>>,
}

impl<'a> Job<'a> {
    spec fn parts(self) -> Parts {
        Parts {
            shape: self.nesting.shape(),
            rep: self.rep@,
            def: self.def@,
            keys: key_values(self.keys@),
            items: self.items.items(),
        }
    }

    spec fn indexed(self) -> bool {
        let n = self.rep@.len();
        &&& self.nesting.wf()
        &&& self.def@.len() == n
        &&& self.keys@.len() == self.nesting.opts@.len()
        &&& self.cells@.len() == n
        &&& self.value_index@.len() == n
        &&& self.key_index@.len() == self.nesting.opts@.len()
        &&& forall|i: int|
            0 <= i < n ==> (#[trigger] self.cells@[i]).cell() == cell(
                self.nesting.shape(),
                self.def@[i] as int,
            )
        &&& forall|i: int|
            0 <= i < n ==> #[trigger] self.value_index@[i] == presents(
                self.nesting.shape(),
                self.def@,
                i,
            )
        &&& forall|k: int|
            0 <= k < self.key_index@.len() ==> (#[trigger] self.key_index@[k])@.len() == n
        &&& forall|k: int, i: int|
            0 <= k < self.key_index@.len() && 0 <= i < n
                ==> #[trigger] self.key_index@[k]@[i] == entries(
                self.nesting.shape(),
                self.rep@,
                self.def@,
                k,
                i,
            )
    }

    spec fn checked(self) -> bool {
        &&& self.indexed()
        &&& first_error(self.nesting.shape(), self.rep@, self.def@, 0) is None
        &&& keys_error(self.parts(), 0) is None
        &&& items_error(self.parts()) is None
    }
}

proof fn lemma_cell_depth(s: Shape, def: int, k: int, base: int)
    requires
        0 <= k,
    ensures
        !ends_above(cell_from(s, def, k, base), k),
    decreases s.opts.len() - k,
{
    if k < s.opts.len() {
        lemma_cell_depth(s, def, k + 1, base + level(s.opts[k]) + 1);
    }
}

proof fn lemma_first_error(s: Shape, rep: Seq<u32>, def: Seq<u32>, from: int, i: int)
    requires
        first_error(s, rep, def, from) is None,
        from <= i < rep.len(),
    ensures
        position_error(s, rep, def, i) is None,
    decreases rep.len() - from,
{
    if from < i {
        lemma_first_error(s, rep, def, from + 1, i);
    }
}

proof fn lemma_presents(s: Shape, def: Seq<u32>, i: int, n: int)
    requires
        0 <= i <= n,
    ensures
        0 <= presents(s, def, i) <= presents(s, def, n),
        presents(s, def, i) <= i,
        i < n && cell(s, def[i] as int) is Present ==> presents(s, def, i) < presents(s, def, n),
    decreases n,
{
    if n > 0 {
        if i < n {
            lemma_presents(s, def, i, n - 1);
        } else {
            lemma_presents(s, def, i - 1, n - 1);
        }
    }
}

proof fn lemma_entries(s: Shape, rep: Seq<u32>, def: Seq<u32>, k: int, i: int, n: int)
    requires
        0 <= i <= n,
    ensures
        0 <= entries(s, rep, def, k, i) <= entries(s, rep, def, k, n),
        entries(s, rep, def, k, i) <= i,
        i < n && starts_entry(s, rep, def, k, i) ==> entries(s, rep, def, k, i) < entries(
            s,
            rep,
            def,
            k,
            n,
        ),
    decreases n,
{
    if n > 0 {
        if i < n {
            lemma_entries(s, rep, def, k, i, n - 1);
        } else {
            lemma_entries(s, rep, def, k, i - 1, n - 1);
        }
    }
}

proof fn lemma_next_start(rep: Seq<u32>, k: int, a: int, b: int)
    requires
        0 <= a < b <= rep.len(),
    ensures
        a < next_start(rep, k, a, b) <= b,
        forall|i: int| a < i < next_start(rep, k, a, b) ==> rep[i] > k,
        next_start(rep, k, a, b) < b ==> rep[next_start(rep, k, a, b)] <= k,
    decreases b - a,
{
    if a + 1 < b && rep[a + 1] > k {
        lemma_next_start(rep, k, a + 1, b);
    }
}

fn find_next_start(rep: &[u32], k: usize, a: usize, b: usize) -> (r: usize)
    requires
        a < b <= rep@.len(),
        k <= 3,
    ensures
        r == next_start(rep@, k as int, a as int, b as int),
{
    let mut p: usize = a + 1;
    while p < b
        invariant
            a < p <= b <= rep@.len(),
            k <= 3,
            next_start(rep@, k as int, a as int, b as int) == next_start(
                rep@,
                k as int,
                p - 1,
                b as int,
            ),
        decreases b - p,
    {
        if rep[p] <= k as u32 {
            return p;
        }
        p += 1;
    }
    b
}

proof fn lemma_keys_enough(p: Parts, from: int, k: int)
    requires
        keys_error(p, from) is None,
        0 <= from <= k < p.shape.opts.len(),
        p.shape.maps[k],
    ensures
        p.keys[k].len() == entries(p.shape, p.rep, p.def, k, p.rep.len() as int),
    decreases k - from,
{
    if from < k {
        lemma_keys_enough(p, from + 1, k);
    }
}

proof fn lemma_columns_enough(columns: Seq<Seq<PqV>>, n: int, from: int, f: int)
    requires
        columns_error(columns, n, from) is None,
        0 <= from <= f < columns.len(),
    ensures
        columns[f].len() == n,
    decreases f - from,
{
    if from < f {
        lemma_columns_enough(columns, n, from + 1, f);
    }
}

/// One row of a struct.
fn make_struct_row(names: &[String], columns: &[Vec<PqValue>], j: usize) -> (r: PqValue)
    requires
        names@.len() == columns@.len(),
        forall|f: int| 0 <= f < columns@.len() ==> j < (#[trigger] columns@[f])@.len(),
    ensures
        r@ == PqV::Struct(struct_row(texts(names@), column_values(columns@), j as int)),
{
    broadcast use group_value_views;

    let mut out: Vec<(String, PqValue)> = Vec::new();
    let mut f: usize = 0;
    let ghost want = struct_row(texts(names@), column_values(columns@), j as int);
    while f < names.len()
        invariant
            f <= names@.len() == columns@.len(),
            forall|f: int| 0 <= f < columns@.len() ==> j < (#[trigger] columns@[f])@.len(),
            want == struct_row(texts(names@), column_values(columns@), j as int),
            out@.len() == f,
            forall|g: int| 0 <= g < f ==> ((#[trigger] out@[g]).0@, out@[g].1@) == want[g],
        decreases names@.len() - f,
    {
        let v = columns[f][j].clone();
        assert(want[f as int] == (names@[f as int]@, v@));
        out.push((names[f].clone(), v));
        f += 1;
    }
    assert(field_values(out@) =~= want);
    PqValue::Struct(out)
}

impl<'a> Job<'a> {
    /// The item at position `a`.
    fn item(&self, a: usize) -> (r: PqValue)
        requires
            self.checked(),
            a < self.rep@.len(),
        ensures
            r@ == item_at(self.parts(), a as int),
    {
        proof {
            lemma_presents(
                self.nesting.shape(),
                self.def@,
                a as int,
                self.rep@.len() as int,
            );
        }
        assert(self.cells@[a as int].cell() == cell(self.nesting.shape(), self.def@[a as int] as int));
        match self.cells[a] {
            Cell::Present => {
                let j: usize = self.value_index[a];
                match &self.items {
                    ItemSource::Values(v) => v[j].clone(),
                    ItemSource::Fields { names, columns } => {
                        proof {
                            let cs = column_values(columns@);
                            assert forall|f: int| 0 <= f < columns@.len() implies j < (
                            #[trigger] columns@[f])@.len() by {
                                lemma_columns_enough(
                                    cs,
                                    presents(
                                        self.nesting.shape(),
                                        self.def@,
                                        self.rep@.len() as int,
                                    ),
                                    0,
                                    f,
                                );
                                assert(cs[f] == values(columns@[f]@));
                            }
                        }
                        make_struct_row(names, columns, j)
                    },
                }
            },
            _ => PqValue::Null,
        }
    }

    /// Whether the positions from `a` to `b` hold exactly one value at depth `k`.
    spec fn one_value(self, k: int, a: int, b: int) -> bool {
        &&& 0 <= a < b <= self.rep@.len()
        &&& self.rep@[a] <= k
        &&& !ends_above(cell(self.nesting.shape(), self.def@[a] as int), k)
        &&& forall|i: int| a < i < b ==> #[trigger] self.rep@[i] > k
    }

    proof fn lemma_part(self, k: int, a: int, b: int, pos: int)
        requires
            self.checked(),
            self.one_value(k, a, b),
            k < self.nesting.opts@.len(),
            a <= pos < b,
            self.rep@[pos] <= k + 1,
            !ends_above(cell(self.nesting.shape(), self.def@[pos] as int), k + 1),
        ensures
            ({
                let e = next_start(self.rep@, k + 1, pos, b);
                &&& pos < e <= b
                &&& self.one_value(k + 1, pos, e)
                &&& e < b ==> self.rep@[e] <= k + 1 && !ends_above(
                    cell(self.nesting.shape(), self.def@[e] as int),
                    k + 1,
                )
            }),
    {
        let e = next_start(self.rep@, k + 1, pos, b);
        lemma_next_start(self.rep@, k + 1, pos, b);
        if e < b {
            assert(self.rep@[e] > k);
            lemma_first_error(self.nesting.shape(), self.rep@, self.def@, 0, e);
        }
    }

    /// The list or map at depth `k` that the positions from `a` to `b` hold.
    fn node(&self, k: usize, a: usize, b: usize) -> (r: PqValue)
        requires
            self.checked(),
            k <= self.nesting.opts@.len(),
            self.one_value(k as int, a as int, b as int),
        ensures
            r@ == node_at(self.parts(), k as int, a as int, b as int),
        decreases self.nesting.opts@.len() - k, 1int,
    {
        broadcast use group_value_views;

        if k == self.nesting.opts.len() {
            return self.item(a);
        }
        assert(self.cells@[a as int].cell() == cell(self.nesting.shape(), self.def@[a as int] as int));
        let is_map: bool = self.nesting.maps[k];
        match self.cells[a] {
            Cell::Missing(d) => {
                if d == k {
                    return PqValue::Null;
                }
            },
            Cell::Empty(d) => {
                if d == k {
                    if is_map {
                        let r = PqValue::MapKv(Vec::new());
                        assert(r@->MapKv_0 =~= Seq::<(PqV, PqV)>::empty());
                        return r;
                    }
                    let r = PqValue::List(Vec::new());
                    assert(r@->List_0 =~= Seq::<PqV>::empty());
                    return r;
                }
            },
            _ => {},
        }
        if is_map {
            PqValue::MapKv(self.map_entries(k, a, b))
        } else {
            PqValue::List(self.elements(k, a, b))
        }
    }

    /// The elements of the list at depth `k` that the positions from `a` to `b` hold.
    fn elements(&self, k: usize, a: usize, b: usize) -> (r: Vec<PqValue>)
        requires
            self.checked(),
            k < self.nesting.opts@.len(),
            self.one_value(k as int, a as int, b as int),
            !ends_above(cell(self.nesting.shape(), self.def@[a as int] as int), k + 1),
        ensures
            values(r@) == elements_at(self.parts(), k as int, a as int, b as int),
        decreases self.nesting.opts@.len() - k, 0int,
    {
        let mut out: Vec<PqValue> = Vec::new();
        let mut pos: usize = a;
        let ghost all = elements_at(self.parts(), k as int, a as int, b as int);
        assert(values(out@) + all =~= all);
        while pos < b
            invariant
                self.checked(),
                k < self.nesting.opts@.len(),
                self.one_value(k as int, a as int, b as int),
                a <= pos <= b,
                pos < b ==> self.rep@[pos as int] <= k + 1 && !ends_above(
                    cell(self.nesting.shape(), self.def@[pos as int] as int),
                    k + 1,
                ),
                all == values(out@) + elements_at(self.parts(), k as int, pos as int, b as int),
            decreases b - pos,
        {
            let ghost before = out@;
            proof {
                self.lemma_part(k as int, a as int, b as int, pos as int);
            }
            let e: usize = find_next_start(self.rep, k + 1, pos, b);
            let v = self.node(k + 1, pos, e);
            out.push(v);
            proof {
                let rest = elements_at(self.parts(), k as int, e as int, b as int);
                assert(elements_at(self.parts(), k as int, pos as int, b as int) == seq![v@] + rest);
                assert(values(before) + (seq![v@] + rest) =~= values(out@) + rest);
            }
            pos = e;
        }
        assert(values(out@) + Seq::<PqV>::empty() =~= values(out@));
        out
    }

    /// The entries of the map at depth `k` that the positions from `a` to `b` hold.
    fn map_entries(&self, k: usize, a: usize, b: usize) -> (r: Vec<(PqValue, PqValue)>)
        requires
            self.checked(),
            k < self.nesting.opts@.len(),
            self.nesting.maps@[k as int],
            self.one_value(k as int, a as int, b as int),
            !ends_above(cell(self.nesting.shape(), self.def@[a as int] as int), k + 1),
        ensures
            pair_values(r@) == entries_at(self.parts(), k as int, a as int, b as int),
        decreases self.nesting.opts@.len() - k, 0int,
    {
        let mut out: Vec<(PqValue, PqValue)> = Vec::new();
        let mut pos: usize = a;
        let ghost all = entries_at(self.parts(), k as int, a as int, b as int);
        assert(pair_values(out@) + all =~= all);
        while pos < b
            invariant
                self.checked(),
                k < self.nesting.opts@.len(),
                self.nesting.maps@[k as int],
                self.one_value(k as int, a as int, b as int),
                a <= pos <= b,
                pos < b ==> self.rep@[pos as int] <= k + 1 && !ends_above(
                    cell(self.nesting.shape(), self.def@[pos as int] as int),
                    k + 1,
                ),
                all == pair_values(out@) + entries_at(
                    self.parts(),
                    k as int,
                    pos as int,
                    b as int,
                ),
            decreases b - pos,
        {
            let ghost before = out@;
            proof {
                self.lemma_part(k as int, a as int, b as int, pos as int);
                lemma_keys_enough(self.parts(), 0, k as int);
                lemma_entries(
                    self.nesting.shape(),
                    self.rep@,
                    self.def@,
                    k as int,
                    pos as int,
                    self.rep@.len() as int,
                );
                assert(self.key_index@[k as int]@[pos as int] == entries(
                    self.nesting.shape(),
                    self.rep@,
                    self.def@,
                    k as int,
                    pos as int,
                ));
            }
            let e: usize = find_next_start(self.rep, k + 1, pos, b);
            let j: usize = self.key_index[k][pos];
            assert(key_values(self.keys@)[k as int] == values(self.keys@[k as int]@));
            let key = self.keys[k][j].clone();
            let v = self.node(k + 1, pos, e);
            let ghost pair = (key@, v@);
            out.push((key, v));
            proof {
                let rest = entries_at(self.parts(), k as int, e as int, b as int);
                assert(entries_at(self.parts(), k as int, pos as int, b as int) == seq![pair]
                    + rest);
                assert(pair_values(before) + (seq![pair] + rest) =~= pair_values(out@) + rest);
            }
            pos = e;
        }
        assert(pair_values(out@) + Seq::<(PqV, PqV)>::empty() =~= pair_values(out@));
        out
    }

    /// All records.
    fn records(&self) -> (r: Vec<PqValue>)
        requires
            self.checked(),
        ensures
            values(r@) == records_at(self.parts(), 0),
    {
        let n: usize = self.rep.len();
        let mut out: Vec<PqValue> = Vec::new();
        let mut pos: usize = 0;
        let ghost all = records_at(self.parts(), 0);
        assert(values(out@) + all =~= all);
        proof {
            if n > 0 {
                lemma_first_error(self.nesting.shape(), self.rep@, self.def@, 0, 0);
            }
        }
        while pos < n
            invariant
                self.checked(),
                n == self.rep@.len(),
                pos <= n,
                pos < n ==> self.rep@[pos as int] == 0,
                all == values(out@) + records_at(self.parts(), pos as int),
            decreases n - pos,
        {
            let ghost before = out@;
            proof {
                lemma_next_start(self.rep@, 0, pos as int, n as int);
                lemma_cell_depth(self.nesting.shape(), self.def@[pos as int] as int, 0, 0);
            }
            let e: usize = find_next_start(self.rep, 0, pos, n);
            let v = self.node(0, pos, e);
            out.push(v);
            proof {
                let rest = records_at(self.parts(), e as int);
                assert(records_at(self.parts(), pos as int) == seq![v@] + rest);
                assert(values(before) + (seq![v@] + rest) =~= values(out@) + rest);
            }
            pos = e;
        }
        assert(values(out@) + Seq::<PqV>::empty() =~= values(out@));
        out
    }
}

/// The cells of all positions, once they have been found good.
fn check_positions(nesting: &Nesting, rep: &[u32], def: &[u32]) -> (r: Result<Vec<Cell>, PqError>)
    requires
        nesting.wf(),
        rep@.len() == def@.len(),
    ensures
        match (r, first_error(nesting.shape(), rep@, def@, 0)) {
            (Ok(v), None) => v@.len() == rep@.len() && forall|i: int|
                0 <= i < v@.len() ==> (#[trigger] v@[i]).cell() == cell(
                    nesting.shape(),
                    def@[i] as int,
                ),
            (Err(x), Some(y)) => x@ == y,
            _ => false,
        },
{
    let mut cells: Vec<Cell> = Vec::new();
    let mut i: usize = 0;
    while i < rep.len()
        invariant
            nesting.wf(),
            i <= rep@.len() == def@.len(),
            cells@.len() == i,
            forall|j: int|
                0 <= j < i ==> (#[trigger] cells@[j]).cell() == cell(
                    nesting.shape(),
                    def@[j] as int,
                ),
            first_error(nesting.shape(), rep@, def@, 0) == first_error(
                nesting.shape(),
                rep@,
                def@,
                i as int,
            ),
        decreases rep@.len() - i,
    {
        if rep[i] > nesting.opts.len() as u32 {
            return Err(bad("nested: repetition level out of range"));
        }
        if def[i] > nesting.max_def {
            return Err(bad("nested: definition level out of range"));
        }
        let c = cell_of(nesting, def[i]);
        let null: bool = match c {
            Cell::Null => true,
            _ => false,
        };
        if null && !nesting.item_optional {
            return Err(bad("nested: definition level implies null but item is REQUIRED"));
        }
        let r: usize = rep[i] as usize;
        if r > 0 {
            let broken: bool = if i == 0 {
                true
            } else {
                assert(cells@[i - 1].cell() == cell(nesting.shape(), def@[i - 1] as int));
                cell_ends_above(cells[i - 1], r) || cell_ends_above(c, r)
            };
            if broken {
                return Err(bad("nested: repetition without an active list"));
            }
        }
        cells.push(c);
        i += 1;
    }
    Ok(cells)
}

/// For each position how many items are there before it, and how many in all.
fn index_values(nesting: &Nesting, def: &[u32], cells: &Vec<Cell>) -> (r: (Vec<usize>, usize))
    requires
        cells@.len() == def@.len(),
        forall|i: int|
            0 <= i < cells@.len() ==> (#[trigger] cells@[i]).cell() == cell(
                nesting.shape(),
                def@[i] as int,
            ),
    ensures
        r.0@.len() == def@.len(),
        forall|i: int|
            0 <= i < def@.len() ==> #[trigger] r.0@[i] == presents(nesting.shape(), def@, i),
        r.1 == presents(nesting.shape(), def@, def@.len() as int),
{
    let mut out: Vec<usize> = Vec::new();
    let mut count: usize = 0;
    let mut i: usize = 0;
    while i < cells.len()
        invariant
            i <= cells@.len() == def@.len(),
            count <= i,
            count == presents(nesting.shape(), def@, i as int),
            out@.len() == i,
            forall|i: int|
                0 <= i < cells@.len() ==> (#[trigger] cells@[i]).cell() == cell(
                    nesting.shape(),
                    def@[i] as int,
                ),
            forall|j: int|
                0 <= j < i ==> #[trigger] out@[j] == presents(nesting.shape(), def@, j),
        decreases cells@.len() - i,
    {
        out.push(count);
        match cells[i] {
            Cell::Present => {
                count += 1;
            },
            _ => {},
        }
        i += 1;
    }
    (out, count)
}

/// For each position how many entries of the map at depth `k` start before it, and how many in all.
fn index_entries(nesting: &Nesting, rep: &[u32], def: &[u32], cells: &Vec<Cell>, k: usize) -> (r: (
    Vec<usize>,
    usize,
))
    requires
        k < 3,
        cells@.len() == def@.len() == rep@.len(),
        forall|i: int|
            0 <= i < cells@.len() ==> (#[trigger] cells@[i]).cell() == cell(
                nesting.shape(),
                def@[i] as int,
            ),
    ensures
        r.0@.len() == def@.len(),
        forall|i: int|
            0 <= i < def@.len() ==> #[trigger] r.0@[i] == entries(
                nesting.shape(),
                rep@,
                def@,
                k as int,
                i,
            ),
        r.1 == entries(nesting.shape(), rep@, def@, k as int, def@.len() as int),
{
    let mut out: Vec<usize> = Vec::new();
    let mut count: usize = 0;
    let mut i: usize = 0;
    while i < cells.len()
        invariant
            k < 3,
            i <= cells@.len() == def@.len() == rep@.len(),
            count <= i,
            count == entries(nesting.shape(), rep@, def@, k as int, i as int),
            out@.len() == i,
            forall|i: int|
                0 <= i < cells@.len() ==> (#[trigger] cells@[i]).cell() == cell(
                    nesting.shape(),
                    def@[i] as int,
                ),
            forall|j: int|
                0 <= j < i ==> #[trigger] out@[j] == entries(
                    nesting.shape(),
                    rep@,
                    def@,
                    k as int,
                    j,
                ),
        decreases cells@.len() - i,
    {
        out.push(count);
        if rep[i] <= k as u32 + 1 && !cell_ends_above(cells[i], k + 1) {
            count += 1;
        }
        i += 1;
    }
    (out, count)
}

fn check_columns(columns: &[Vec<PqValue>], n: usize) -> (r: Result<(), PqError>)
    ensures
        match (r, columns_error(column_values(columns@), n as int, 0)) {
            (Ok(_), None) => true,
            (Err(x), Some(y)) => x@ == y,
            _ => false,
        },
        r is Ok ==> forall|f: int| 0 <= f < columns@.len() ==> (#[trigger] columns@[f])@.len() == n,
{
    let mut f: usize = 0;
    while f < columns.len()
        invariant
            f <= columns@.len(),
            columns_error(column_values(columns@), n as int, 0) == columns_error(
                column_values(columns@),
                n as int,
                f as int,
            ),
            forall|g: int| 0 <= g < f ==> (#[trigger] columns@[g])@.len() == n,
        decreases columns@.len() - f,
    {
        assert(column_values(columns@)[f as int] == values(columns@[f as int]@));
        if columns[f].len() != n {
            return Err(bad("struct: field length mismatch"));
        }
        f += 1;
    }
    Ok(())
}

fn check_names(names: &[String], columns: &[Vec<PqValue>]) -> (r: Result<(), PqError>)
    ensures
        match (r, names_error(texts(names@), column_values(columns@))) {
            (Ok(_), None) => names@.len() == columns@.len() && names@.len() > 0,
            (Err(x), Some(y)) => x@ == y,
            _ => false,
        },
{
    if names.len() != columns.len() {
        return Err(bad("struct: field names and columns differ in number"));
    }
    if names.len() == 0 {
        return Err(bad("struct: no fields"));
    }
    Ok(())
}

fn check_items(items: &ItemSource<'_>, n: usize, Ghost(p): Ghost<Parts>) -> (r: Result<(), PqError>)
    requires
        p.items == items.items(),
        n == presents(p.shape, p.def, p.rep.len() as int),
    ensures
        match (r, items_error(p)) {
            (Ok(_), None) => true,
            (Err(x), Some(y)) => x@ == y,
            _ => false,
        },
{
    match items {
        ItemSource::Values(v) => {
            if n > v.len() {
                return Err(bad("nested: value stream exhausted"));
            }
            if n < v.len() {
                return Err(bad("nested: values not fully consumed"));
            }
            Ok(())
        },
        ItemSource::Fields { names, columns } => {
            check_names(names, columns)?;
            check_columns(columns, n)
        },
    }
}

/// Puts the records of a nested column together.
fn assemble<'a>(
    nesting: Nesting,
    rep: &'a [u32],
    def: &'a [u32],
    keys: Vec<&'a [PqValue]>,
    items: ItemSource<'a>,
) -> (r: Result<Vec<PqValue>, PqError>)
    requires
        nesting.wf(),
        keys@.len() == nesting.opts@.len(),
    ensures
        decodes(
            r,
            assembled(
                Parts {
                    shape: nesting.shape(),
                    rep: rep@,
                    def: def@,
                    keys: key_values(keys@),
                    items: items.items(),
                },
            ),
        ),
{
    let ghost p = Parts {
        shape: nesting.shape(),
        rep: rep@,
        def: def@,
        keys: key_values(keys@),
        items: items.items(),
    };
    if rep.len() != def.len() {
        return Err(bad("nested: repetition and definition levels differ in number"));
    }
    let cells = check_positions(&nesting, rep, def)?;
    let mut key_index: Vec<Vec<usize>> = Vec::new();
    let mut k: usize = 0;
    while k < nesting.opts.len()
        invariant
            nesting.wf(),
            k <= nesting.opts@.len(),
            keys@.len() == nesting.opts@.len(),
            cells@.len() == def@.len() == rep@.len(),
            p == (Parts {
                shape: nesting.shape(),
                rep: rep@,
                def: def@,
                keys: key_values(keys@),
                items: items.items(),
            }),
            first_error(p.shape, p.rep, p.def, 0) is None,
            forall|i: int|
                0 <= i < cells@.len() ==> (#[trigger] cells@[i]).cell() == cell(
                    nesting.shape(),
                    def@[i] as int,
                ),
            key_index@.len() == k,
            forall|d: int| 0 <= d < k ==> (#[trigger] key_index@[d])@.len() == rep@.len(),
            forall|d: int, i: int|
                0 <= d < k && 0 <= i < rep@.len() ==> #[trigger] key_index@[d]@[i] == entries(
                    nesting.shape(),
                    rep@,
                    def@,
                    d,
                    i,
                ),
            keys_error(p, 0) == keys_error(p, k as int),
        decreases nesting.opts@.len() - k,
    {
        let (index, count) = index_entries(&nesting, rep, def, &cells, k);
        assert(p.keys[k as int] == values(keys@[k as int]@));
        if nesting.maps[k] {
            if count > keys[k].len() {
                return Err(bad("nested: key stream exhausted"));
            }
            if count < keys[k].len() {
                return Err(bad("nested: keys not fully consumed"));
            }
        }
        key_index.push(index);
        k += 1;
    }
    let (value_index, count) = index_values(&nesting, def, &cells);
    check_items(&items, count, Ghost(p))?;
    let job = Job { nesting, rep, def, keys, items, cells, value_index, key_index };
    Ok(job.records())
}

/// A nested column whose items are leaf values, as the levels, keys and values of one list or map of
/// lists and maps.
pub open spec fn leaf_parts(
    opts: Seq<bool>,
    maps: Seq<bool>,
    max_def: u32,
    item_optional: bool,
    rep: Seq<u32>,
    def: Seq<u32>,
    keys: Seq<Seq<PqV>>,
    items: Seq<PqV>,
) -> Parts {
    Parts {
        shape: Shape { opts, maps, max_def: max_def as int, item_optional },
        rep,
        def,
        keys,
        items: Items::Values(items),
    }
}

/// The levels with each one above `m` taken down to it.
pub open spec fn clamped(def: Seq<u32>, m: u32) -> Seq<u32> {
    def.map_values(
        |d: u32|
            if d > m {
                m
            } else {
                d
            },
    )
}

/// A list of structs or a map to structs. An item is there from the level `max_def` on; what is
/// above it belongs to the field whose levels these are.
pub open spec fn struct_parts(
    map: bool,
    outer_optional: bool,
    max_def: u32,
    rep: Seq<u32>,
    def: Seq<u32>,
    keys: Seq<PqV>,
    names: Seq<Seq<char>>,
    columns: Seq<Seq<PqV>>,
) -> Parts {
    Parts {
        shape: Shape {
            opts: seq![outer_optional],
            maps: seq![map],
            max_def: max_def as int,
            item_optional: false,
        },
        rep,
        def: clamped(def, max_def),
        keys: seq![keys],
        items: Items::Fields { names, columns },
    }
}

fn clamp_levels(def: &[u32], m: u32) -> (r: Vec<u32>)
    ensures
        r@ == clamped(def@, m),
{
    let mut out: Vec<u32> = Vec::new();
    let mut i: usize = 0;
    while i < def.len()
        invariant
            i <= def@.len(),
            out@.len() == i,
            forall|j: int| 0 <= j < i ==> #[trigger] out@[j] == clamped(def@, m)[j],
        decreases def@.len() - i,
    {
        let d: u32 = def[i];
        out.push(
            if d > m {
                m
            } else {
                d
            },
        );
        i += 1;
    }
    assert(out@ =~= clamped(def@, m));
    out
}

/// Puts lists of leaves together.
pub fn assemble_list_primitive(
    rep: &[u32],
    def: &[u32],
    items: &[PqValue],
    max_def_level: u32,
    outer_optional: bool,
    element_optional: bool,
) -> (r: Result<Vec<PqValue>, PqError>)
    ensures
        decodes(
            r,
            assembled(
                leaf_parts(
                    seq![outer_optional],
                    seq![false],
                    max_def_level,
                    element_optional,
                    rep@,
                    def@,
                    seq![Seq::empty()],
                    values(items@),
                ),
            ),
        ),
{
    let none: Vec<PqValue> = Vec::new();
    let keys = vec![none.as_slice()];
    let nesting = Nesting {
        opts: vec![outer_optional],
        maps: vec![false],
        max_def: max_def_level,
        item_optional: element_optional,
    };
    proof {
        assert(values(none@) =~= Seq::<PqV>::empty());
        assert(key_values(keys@) =~= seq![Seq::<PqV>::empty()]);
        assert(nesting.opts@ =~= seq![outer_optional]);
        assert(nesting.maps@ =~= seq![false]);
    }
    assemble(nesting, rep, def, keys, ItemSource::Values(items))
}

/// Puts lists of lists of leaves together.
pub fn assemble_list_of_list_primitive(
    rep: &[u32],
    def: &[u32],
    items: &[PqValue],
    max_def_level: u32,
    outer_optional: bool,
    inner_optional: bool,
    item_optional: bool,
) -> (r: Result<Vec<PqValue>, PqError>)
    ensures
        decodes(
            r,
            assembled(
                leaf_parts(
                    seq![outer_optional, inner_optional],
                    seq![false, false],
                    max_def_level,
                    item_optional,
                    rep@,
                    def@,
                    seq![Seq::empty(), Seq::empty()],
                    values(items@),
                ),
            ),
        ),
{
    let none: Vec<PqValue> = Vec::new();
    let keys = vec![none.as_slice(), none.as_slice()];
    let nesting = Nesting {
        opts: vec![outer_optional, inner_optional],
        maps: vec![false, false],
        max_def: max_def_level,
        item_optional,
    };
    proof {
        assert(values(none@) =~= Seq::<PqV>::empty());
        assert(key_values(keys@) =~= seq![Seq::<PqV>::empty(), Seq::<PqV>::empty()]);
        assert(nesting.opts@ =~= seq![outer_optional, inner_optional]);
        assert(nesting.maps@ =~= seq![false, false]);
    }
    assemble(nesting, rep, def, keys, ItemSource::Values(items))
}

/// Puts lists of lists of lists of leaves together.
pub fn assemble_list_of_list_of_list_primitive(
    rep: &[u32],
    def: &[u32],
    items: &[PqValue],
    max_def_level: u32,
    outer_optional: bool,
    middle_optional: bool,
    inner_optional: bool,
    item_optional: bool,
) -> (r: Result<Vec<PqValue>, PqError>)
    ensures
        decodes(
            r,
            assembled(
                leaf_parts(
                    seq![outer_optional, middle_optional, inner_optional],
                    seq![false, false, false],
                    max_def_level,
                    item_optional,
                    rep@,
                    def@,
                    seq![Seq::empty(), Seq::empty(), Seq::empty()],
                    values(items@),
                ),
            ),
        ),
{
    let none: Vec<PqValue> = Vec::new();
    let keys = vec![none.as_slice(), none.as_slice(), none.as_slice()];
    let nesting = Nesting {
        opts: vec![outer_optional, middle_optional, inner_optional],
        maps: vec![false, false, false],
        max_def: max_def_level,
        item_optional,
    };
    proof {
        assert(values(none@) =~= Seq::<PqV>::empty());
        assert(key_values(keys@) =~= seq![
            Seq::<PqV>::empty(),
            Seq::<PqV>::empty(),
            Seq::<PqV>::empty(),
        ]);
        assert(nesting.opts@ =~= seq![outer_optional, middle_optional, inner_optional]);
        assert(nesting.maps@ =~= seq![false, false, false]);
    }
    assemble(nesting, rep, def, keys, ItemSource::Values(items))
}

/// Puts maps from leaves to leaves together.
pub fn assemble_map_kv(
    rep: &[u32],
    def: &[u32],
    keys: &[PqValue],
    items: &[PqValue],
    max_def_level: u32,
    outer_optional: bool,
    value_optional: bool,
) -> (r: Result<Vec<PqValue>, PqError>)
    ensures
        decodes(
            r,
            assembled(
                leaf_parts(
                    seq![outer_optional],
                    seq![true],
                    max_def_level,
                    value_optional,
                    rep@,
                    def@,
                    seq![values(keys@)],
                    values(items@),
                ),
            ),
        ),
{
    let all_keys = vec![keys];
    let nesting = Nesting {
        opts: vec![outer_optional],
        maps: vec![true],
        max_def: max_def_level,
        item_optional: value_optional,
    };
    proof {
        assert(key_values(all_keys@) =~= seq![values(keys@)]);
        assert(nesting.opts@ =~= seq![outer_optional]);
        assert(nesting.maps@ =~= seq![true]);
    }
    assemble(nesting, rep, def, all_keys, ItemSource::Values(items))
}

/// Puts maps from leaves to lists of leaves together.
pub fn assemble_map_of_list(
    rep: &[u32],
    def: &[u32],
    keys: &[PqValue],
    items: &[PqValue],
    max_def_level: u32,
    outer_optional: bool,
    value_item_optional: bool,
) -> (r: Result<Vec<PqValue>, PqError>)
    ensures
        decodes(
            r,
            assembled(
                leaf_parts(
                    seq![outer_optional, false],
                    seq![true, false],
                    max_def_level,
                    value_item_optional,
                    rep@,
                    def@,
                    seq![values(keys@), Seq::empty()],
                    values(items@),
                ),
            ),
        ),
{
    let none: Vec<PqValue> = Vec::new();
    let all_keys = vec![keys, none.as_slice()];
    let nesting = Nesting {
        opts: vec![outer_optional, false],
        maps: vec![true, false],
        max_def: max_def_level,
        item_optional: value_item_optional,
    };
    proof {
        assert(values(none@) =~= Seq::<PqV>::empty());
        assert(key_values(all_keys@) =~= seq![values(keys@), Seq::<PqV>::empty()]);
        assert(nesting.opts@ =~= seq![outer_optional, false]);
        assert(nesting.maps@ =~= seq![true, false]);
    }
    assemble(nesting, rep, def, all_keys, ItemSource::Values(items))
}

/// Puts lists of maps from leaves to leaves together.
pub fn assemble_list_of_map_kv(
    rep: &[u32],
    def: &[u32],
    keys: &[PqValue],
    items: &[PqValue],
    max_def_level: u32,
    outer_optional: bool,
    value_optional: bool,
) -> (r: Result<Vec<PqValue>, PqError>)
    ensures
        decodes(
            r,
            assembled(
                leaf_parts(
                    seq![outer_optional, false],
                    seq![false, true],
                    max_def_level,
                    value_optional,
                    rep@,
                    def@,
                    seq![Seq::empty(), values(keys@)],
                    values(items@),
                ),
            ),
        ),
{
    let none: Vec<PqValue> = Vec::new();
    let all_keys = vec![none.as_slice(), keys];
    let nesting = Nesting {
        opts: vec![outer_optional, false],
        maps: vec![false, true],
        max_def: max_def_level,
        item_optional: value_optional,
    };
    proof {
        assert(values(none@) =~= Seq::<PqV>::empty());
        assert(key_values(all_keys@) =~= seq![Seq::<PqV>::empty(), values(keys@)]);
        assert(nesting.opts@ =~= seq![outer_optional, false]);
        assert(nesting.maps@ =~= seq![false, true]);
    }
    assemble(nesting, rep, def, all_keys, ItemSource::Values(items))
}

/// Puts maps from leaves to maps from leaves to leaves together.
pub fn assemble_map_of_map_kv(
    rep: &[u32],
    def: &[u32],
    outer_keys: &[PqValue],
    inner_keys: &[PqValue],
    items: &[PqValue],
    max_def_level: u32,
    outer_optional: bool,
    inner_value_optional: bool,
) -> (r: Result<Vec<PqValue>, PqError>)
    ensures
        decodes(
            r,
            assembled(
                leaf_parts(
                    seq![outer_optional, false],
                    seq![true, true],
                    max_def_level,
                    inner_value_optional,
                    rep@,
                    def@,
                    seq![values(outer_keys@), values(inner_keys@)],
                    values(items@),
                ),
            ),
        ),
{
    let all_keys = vec![outer_keys, inner_keys];
    let nesting = Nesting {
        opts: vec![outer_optional, false],
        maps: vec![true, true],
        max_def: max_def_level,
        item_optional: inner_value_optional,
    };
    proof {
        assert(key_values(all_keys@) =~= seq![values(outer_keys@), values(inner_keys@)]);
        assert(nesting.opts@ =~= seq![outer_optional, false]);
        assert(nesting.maps@ =~= seq![true, true]);
    }
    assemble(nesting, rep, def, all_keys, ItemSource::Values(items))
}

/// Puts lists of structs together.
pub fn assemble_list_of_struct(
    rep: &[u32],
    def: &[u32],
    field_names: &[String],
    field_columns: &[Vec<PqValue>],
    list_max_def_level: u32,
    outer_optional: bool,
) -> (r: Result<Vec<PqValue>, PqError>)
    ensures
        decodes(
            r,
            assembled(
                struct_parts(
                    false,
                    outer_optional,
                    list_max_def_level,
                    rep@,
                    def@,
                    Seq::empty(),
                    texts(field_names@),
                    column_values(field_columns@),
                ),
            ),
        ),
{
    let none: Vec<PqValue> = Vec::new();
    let keys = vec![none.as_slice()];
    let nesting = Nesting {
        opts: vec![outer_optional],
        maps: vec![false],
        max_def: list_max_def_level,
        item_optional: false,
    };
    proof {
        assert(values(none@) =~= Seq::<PqV>::empty());
        assert(key_values(keys@) =~= seq![Seq::<PqV>::empty()]);
        assert(nesting.opts@ =~= seq![outer_optional]);
        assert(nesting.maps@ =~= seq![false]);
    }
    let levels = clamp_levels(def, list_max_def_level);
    assemble(
        nesting,
        rep,
        levels.as_slice(),
        keys,
        ItemSource::Fields { names: field_names, columns: field_columns },
    )
}

/// Puts maps from leaves to structs together.
pub fn assemble_map_of_struct(
    rep: &[u32],
    def: &[u32],
    keys: &[PqValue],
    field_names: &[String],
    field_columns: &[Vec<PqValue>],
    map_max_def_level: u32,
    outer_optional: bool,
) -> (r: Result<Vec<PqValue>, PqError>)
    ensures
        decodes(
            r,
            assembled(
                struct_parts(
                    true,
                    outer_optional,
                    map_max_def_level,
                    rep@,
                    def@,
                    values(keys@),
                    texts(field_names@),
                    column_values(field_columns@),
                ),
            ),
        ),
{
    let all_keys = vec![keys];
    let nesting = Nesting {
        opts: vec![outer_optional],
        maps: vec![true],
        max_def: map_max_def_level,
        item_optional: false,
    };
    proof {
        assert(key_values(all_keys@) =~= seq![values(keys@)]);
        assert(nesting.opts@ =~= seq![outer_optional]);
        assert(nesting.maps@ =~= seq![true]);
    }
    let levels = clamp_levels(def, map_max_def_level);
    assemble(
        nesting,
        rep,
        levels.as_slice(),
        all_keys,
        ItemSource::Fields { names: field_names, columns: field_columns },
    )
}

/// Whether every value is null.
pub open spec fn all_null(s: Seq<(Seq<char>, PqV)>) -> bool {
    forall|i: int| 0 <= i < s.len() ==> (#[trigger] s[i]).1 is Null
}

/// The rows of a struct column. A struct that may be absent is so where all its fields are null.
pub open spec fn struct_rows(
    names: Seq<Seq<char>>,
    columns: Seq<Seq<PqV>>,
    outer_optional: bool,
) -> Result<Seq<PqV>, PqErrorView> {
    match names_error(names, columns) {
        Some(x) => Err(x),
        None => match columns_error(columns, columns[0].len() as int, 0) {
            Some(x) => Err(x),
            None => Ok(
                Seq::new(
                    columns[0].len(),
                    |j: int|
                        if outer_optional && all_null(struct_row(names, columns, j)) {
                            PqV::Null
                        } else {
                            PqV::Struct(struct_row(names, columns, j))
                        },
                ),
            ),
        },
    }
}

fn row_is_null(columns: &[Vec<PqValue>], j: usize, Ghost(names): Ghost<Seq<Seq<char>>>) -> (r: bool)
    requires
        names.len() == columns@.len(),
        forall|f: int| 0 <= f < columns@.len() ==> j < (#[trigger] columns@[f])@.len(),
    ensures
        r == all_null(struct_row(names, column_values(columns@), j as int)),
{
    let ghost row = struct_row(names, column_values(columns@), j as int);
    let mut f: usize = 0;
    while f < columns.len()
        invariant
            f <= columns@.len() == names.len(),
            row == struct_row(names, column_values(columns@), j as int),
            forall|f: int| 0 <= f < columns@.len() ==> j < (#[trigger] columns@[f])@.len(),
            forall|g: int| 0 <= g < f ==> (#[trigger] row[g]).1 is Null,
        decreases columns@.len() - f,
    {
        assert(row[f as int].1 == columns@[f as int]@[j as int]@);
        match columns[f][j] {
            PqValue::Null => {},
            _ => {
                assert(!(row[f as int].1 is Null));
                return false;
            },
        }
        f += 1;
    }
    true
}

/// Puts structs together from the columns of their fields.
pub fn assemble_struct(
    field_names: &[String],
    field_columns: &[Vec<PqValue>],
    outer_optional: bool,
) -> (r: Result<Vec<PqValue>, PqError>)
    ensures
        decodes(
            r,
            struct_rows(texts(field_names@), column_values(field_columns@), outer_optional),
        ),
{
    check_names(field_names, field_columns)?;
    let n: usize = field_columns[0].len();
    assert(column_values(field_columns@)[0] == values(field_columns@[0]@));
    check_columns(field_columns, n)?;
    let ghost names = texts(field_names@);
    let ghost want = struct_rows(names, column_values(field_columns@), outer_optional)->Ok_0;
    let mut out: Vec<PqValue> = Vec::new();
    let mut j: usize = 0;
    while j < n
        invariant
            j <= n,
            names == texts(field_names@),
            field_names@.len() == field_columns@.len(),
            want == Seq::new(
                n as nat,
                |j: int|
                    if outer_optional && all_null(
                        struct_row(names, column_values(field_columns@), j),
                    ) {
                        PqV::Null
                    } else {
                        PqV::Struct(struct_row(names, column_values(field_columns@), j))
                    },
            ),
            forall|f: int| 0 <= f < field_columns@.len() ==> (#[trigger] field_columns@[f])@.len() == n,
            out@.len() == j,
            forall|i: int| 0 <= i < j ==> (#[trigger] out@[i])@ == want[i],
        decreases n - j,
    {
        let null: bool = outer_optional && row_is_null(field_columns, j, Ghost(names));
        if null {
            out.push(PqValue::Null);
        } else {
            out.push(make_struct_row(field_names, field_columns, j));
        }
        j += 1;
    }
    assert(values(out@) =~= want);
    Ok(out)
}

} // verus!
