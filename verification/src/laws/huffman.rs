//! Literals in the Huffman codes that weights give: what was written is read back.
use vstd::arithmetic::power2::{
    lemma2_to64, lemma_pow2_adds, lemma_pow2_pos, lemma_pow2_strictly_increases, lemma_pow2_unfold,
    pow2,
};
use vstd::prelude::*;

use crate::bytes::{le, lemma_pow256_values};
use crate::laws::back_streams::{
    back_form, fields_fit, lemma_back_bits, lemma_back_field, lemma_peek, lemma_top, width_of,
    BitField,
};
use crate::laws::numbers::{law_le, le_form};
use crate::zstd::ZstdErrorView;
use crate::zstd_huffman::{
    entries_of_weight, entries_to, nibbles, part, parts, tree_at, tree_of, HuffmanEntry, HuffmanView,
};
use crate::zstd_huffstream::{four_streams, stream_symbols, symbols_from};

verus! {

/// The share of all codes that a symbol of weight `w` takes, in units of the longest code.
pub open spec fn share(w: u8) -> nat {
    if w == 0 {
        0
    } else {
        pow2((w - 1) as nat)
    }
}

/// What the symbols lighter than `w` take together.
pub open spec fn lighter(weights: Seq<u8>, w: nat) -> nat
    decreases weights.len(),
{
    if weights.len() == 0 {
        0
    } else {
        lighter(weights.drop_last(), w) + if weights.last() < w {
            share(weights.last())
        } else {
            0
        }
    }
}

/// How many of the symbols before `x` have weight `w`.
pub open spec fn alike(weights: Seq<u8>, w: u8, x: int) -> nat
    decreases x,
{
    if x <= 0 {
        0
    } else {
        alike(weights, w, x - 1) + if weights[x - 1] == w {
            1nat
        } else {
            0
        }
    }
}

/// The code of a symbol. Codes count up through the symbols from the lightest to the heaviest, and
/// among those of one weight in the order of the symbols; a lighter symbol has a longer code.
pub open spec fn code_of(weights: Seq<u8>, x: int) -> nat {
    lighter(weights, weights[x] as nat) / share(weights[x]) + alike(weights, weights[x], x)
}

/// Whether the weights of all symbols make a tree whose longest code has `max` bits.
pub open spec fn weights_ok(weights: Seq<u8>, max: nat) -> bool {
    &&& 2 <= weights.len() <= 256
    &&& 1 <= max <= 11
    &&& forall|x: int| 0 <= x < weights.len() ==> #[trigger] weights[x] <= max
    &&& weights.last() > 0
    &&& lighter(weights, max + 1) == pow2(max)
}

/// A symbol's code and its width.
pub open spec fn coded(weights: Seq<u8>, max: nat, x: u8) -> BitField {
    (code_of(weights, x as int), (max + 1 - weights[x as int]) as nat)
}

/// The codes of some symbols.
pub open spec fn all_coded(weights: Seq<u8>, max: nat, s: Seq<u8>) -> Seq<BitField> {
    s.map_values(|x: u8| coded(weights, max, x))
}

/// Whether each of the symbols has a code.
pub open spec fn codable(weights: Seq<u8>, s: Seq<u8>) -> bool {
    forall|i: int|
        #![trigger s[i]]
        0 <= i < s.len() ==> s[i] < weights.len() && weights[s[i] as int] > 0
}

/// The stream of some symbols.
pub open spec fn stream_form(weights: Seq<u8>, max: nat, s: Seq<u8>) -> Seq<u8> {
    back_form(all_coded(weights, max, s))
}

/// The tree for the weights.
spec fn tree_for(weights: Seq<u8>, max: nat) -> HuffmanView {
    HuffmanView { max_bits: max as u8, entries: entries_to(weights, max, max as int) }
}

proof fn lemma_lighter_step(weights: Seq<u8>, w: nat)
    requires
        w <= 255,
    ensures
        lighter(weights, w + 1) == lighter(weights, w) + alike(
            weights,
            w as u8,
            weights.len() as int,
        ) * share(w as u8),
    decreases weights.len(),
{
    let u = w as u8;
    if weights.len() == 0 {
        assert(0 * share(u) == 0) by (nonlinear_arith);
    } else {
        let front = weights.drop_last();
        let n = front.len() as int;
        lemma_lighter_step(front, w);
        lemma_alike_prefix(weights, u, n);
        let a = alike(front, u, n) as int;
        let p = share(u) as int;
        assert((a + 1) * p == a * p + p) by (nonlinear_arith);
    }
}

proof fn lemma_alike_prefix(weights: Seq<u8>, w: u8, x: int)
    requires
        0 <= x < weights.len(),
    ensures
        alike(weights, w, x) == alike(weights.drop_last(), w, x),
    decreases x,
{
    if x > 0 {
        lemma_alike_prefix(weights, w, x - 1);
    }
}

/// The table's part for one weight.
proof fn lemma_of_weight(weights: Seq<u8>, w: u8, max: int)
    requires
        weights.len() <= 256,
    ensures
        entries_of_weight(weights, w, max).len() == alike(weights, w, weights.len() as int) * share(
            w,
        ),
    decreases weights.len(),
{
    if weights.len() == 0 {
        assert(0 * share(w) == 0) by (nonlinear_arith);
    } else {
        let front = weights.drop_last();
        let n = front.len() as int;
        lemma_of_weight(front, w, max);
        lemma_alike_prefix(weights, w, n);
        let a = alike(front, w, n) as int;
        let p = share(w) as int;
        assert((a + 1) * p == a * p + p) by (nonlinear_arith);
    }
}

/// The cells of a symbol in the table's part for its weight.
proof fn lemma_cells(weights: Seq<u8>, w: u8, max: int, x: int, k: int)
    requires
        weights.len() <= 256,
        0 <= x < weights.len(),
        weights[x] == w,
        0 <= k < share(w),
    ensures
        ({
            let at = alike(weights, w, x) * share(w) + k;
            let cells = entries_of_weight(weights, w, max);
            &&& 0 <= at < cells.len()
            &&& cells[at] == (HuffmanEntry { symbol: x as u8, nb_bits: (max + 1 - w) as u8 })
        }),
    decreases weights.len(),
{
    let front = weights.drop_last();
    let n = front.len() as int;
    let a = alike(weights, w, x) as int;
    let p = share(w) as int;
    lemma_of_weight(front, w, max);
    lemma_of_weight(weights, w, max);
    lemma_alike_prefix(weights, w, n);
    lemma_alike_prefix(weights, w, x);
    assert(a * p >= 0) by (nonlinear_arith)
        requires
            a >= 0,
            p >= 0,
    ;
    if x < n {
        lemma_cells(front, w, max, x, k);
    } else {
        let b = alike(front, w, n) as int;
        assert((b + 1) * p == b * p + p) by (nonlinear_arith);
    }
}

/// Where the table's parts for the weights stand.
proof fn lemma_entries(weights: Seq<u8>, top: nat, max: int)
    requires
        weights.len() <= 256,
        top <= 255,
    ensures
        entries_to(weights, top, max).len() == lighter(weights, top + 1),
    decreases top,
{
    lemma_lighter_step(weights, top);
    if top == 0 {
        lemma_lighter_one(weights);
    } else {
        lemma_entries(weights, (top - 1) as nat, max);
        lemma_of_weight(weights, top as u8, max);
    }
}

proof fn lemma_lighter_one(weights: Seq<u8>)
    ensures
        lighter(weights, 1) == 0,
        lighter(weights, 0) == 0,
    decreases weights.len(),
{
    if weights.len() > 0 {
        lemma_lighter_one(weights.drop_last());
    }
}

proof fn lemma_entry(weights: Seq<u8>, top: nat, max: int, w: u8, j: int)
    requires
        weights.len() <= 256,
        1 <= w <= top <= 255,
        0 <= j < entries_of_weight(weights, w, max).len(),
    ensures
        ({
            let at = lighter(weights, w as nat) + j;
            &&& at < entries_to(weights, top, max).len()
            &&& entries_to(weights, top, max)[at] == entries_of_weight(weights, w, max)[j]
        }),
    decreases top,
{
    lemma_entries(weights, (top - 1) as nat, max);
    if w < top {
        lemma_entry(weights, (top - 1) as nat, max, w, j);
    }
}

/// What the symbols of weight `w` or more take is a whole number of shares of weight `w`, and with
/// the lighter ones they take everything.
proof fn lemma_heavier(weights: Seq<u8>, max: nat, w: u8)
    requires
        forall|x: int| 0 <= x < weights.len() ==> #[trigger] weights[x] <= max,
        1 <= w <= max,
    ensures
        exists|q: nat|
            lighter(weights, max + 1) == lighter(weights, w as nat) + #[trigger] (q * share(w)),
    decreases weights.len(),
{
    let p = share(w) as int;
    if weights.len() == 0 {
        assert(0 * share(w) == 0) by (nonlinear_arith);
        assert(lighter(weights, max + 1) == lighter(weights, w as nat) + 0nat * share(w));
    } else {
        let front = weights.drop_last();
        let l = weights.last();
        assert(l == weights[weights.len() - 1]);
        assert forall|x: int| 0 <= x < front.len() implies #[trigger] front[x] <= max by {
            assert(front[x] == weights[x]);
        }
        lemma_heavier(front, max, w);
        let q = choose|q: nat|
            lighter(front, max + 1) == lighter(front, w as nat) + #[trigger] (q * share(w));
        if l < w {
            assert(lighter(weights, max + 1) == lighter(weights, w as nat) + q * share(w));
        } else {
            let d = pow2((l - w) as nat);
            lemma_pow2_adds((l - w) as nat, (w - 1) as nat);
            let qq = q as int;
            let dd = d as int;
            assert((qq + dd) * p == qq * p + dd * p) by (nonlinear_arith);
            let r = (q + d) as nat;
            assert(lighter(weights, max + 1) == lighter(weights, w as nat) + r * share(w));
        }
    }
}

/// The lighter symbols take a whole number of shares of weight `w`.
proof fn lemma_whole(weights: Seq<u8>, max: nat, w: u8)
    requires
        weights_ok(weights, max),
        1 <= w <= max,
    ensures
        lighter(weights, w as nat) == (lighter(weights, w as nat) / share(w)) * share(w),
        share(w) > 0,
{
    lemma_heavier(weights, max, w);
    let q = choose|q: nat|
        lighter(weights, max + 1) == lighter(weights, w as nat) + #[trigger] (q * share(w));
    let p = share(w) as int;
    lemma_pow2_pos((w - 1) as nat);
    lemma_pow2_adds((max + 1 - w) as nat, (w - 1) as nat);
    let e = pow2((max + 1 - w) as nat) as int;
    let l = lighter(weights, w as nat) as int;
    let qq = q as int;
    assert(l == p * (e - qq) + 0) by (nonlinear_arith)
        requires
            e * p == l + qq * p,
    ;
    vstd::arithmetic::div_mod::lemma_fundamental_div_mod_converse(l, p, e - qq, 0);
    assert(p * (e - qq) == (e - qq) * p) by (nonlinear_arith);
}

/// The code of a symbol fits its width, and where the bits ahead start with it the table tells the
/// symbol.
proof fn lemma_code(weights: Seq<u8>, max: nat, x: int, v: int)
    requires
        weights_ok(weights, max),
        0 <= x < weights.len(),
        weights[x] > 0,
    ensures
        code_of(weights, x) < pow2((max + 1 - weights[x]) as nat),
        code_of(weights, x) * share(weights[x]) <= v < (code_of(weights, x) + 1) * share(weights[x])
            ==> tree_for(weights, max).entries[v] == (HuffmanEntry {
            symbol: x as u8,
            nb_bits: (max + 1 - weights[x]) as u8,
        }) && 0 <= v < tree_for(weights, max).entries.len(),
        tree_for(weights, max).entries.len() == pow2(max),
{
    let w = weights[x];
    let p = share(w) as int;
    let l = lighter(weights, w as nat) as int;
    let a = alike(weights, w, x) as int;
    lemma_whole(weights, max, w);
    lemma_entries(weights, max, max as int);
    let c = code_of(weights, x) as int;
    let q = l / p;
    assert(c * p == l + a * p) by (nonlinear_arith)
        requires
            c == q + a,
            l == q * p,
    ;
    assert((c + 1) * p == c * p + p) by (nonlinear_arith);
    assert(a * p >= 0) by (nonlinear_arith)
        requires
            a >= 0,
            p >= 0,
    ;
    lemma_cells(weights, w, max as int, x, p - 1);
    lemma_entry(weights, max, max as int, w, a * p + p - 1);
    assert(c * p + p <= pow2(max));
    lemma_pow2_adds((max + 1 - w) as nat, (w - 1) as nat);
    let e = pow2((max + 1 - w) as nat) as int;
    assert(c < e) by (nonlinear_arith)
        requires
            (c + 1) * p <= e * p,
            p > 0,
    ;
    if c * p <= v < (c + 1) * p {
        let k = v - c * p;
        lemma_cells(weights, w, max as int, x, k);
        lemma_entry(weights, max, max as int, w, a * p + k);
    }
}

proof fn lemma_coded_fit(weights: Seq<u8>, max: nat, s: Seq<u8>)
    requires
        weights_ok(weights, max),
        codable(weights, s),
    ensures
        fields_fit(all_coded(weights, max, s)),
{
    let f = all_coded(weights, max, s);
    assert forall|i: int| #![trigger f[i]] 0 <= i < f.len() implies f[i].0 < pow2(f[i].1) by {
        assert(s[i] < weights.len());
        lemma_code(weights, max, s[i] as int, 0);
    }
}

proof fn lemma_symbols(weights: Seq<u8>, max: nat, s: Seq<u8>, i: int, have: Seq<u8>)
    requires
        weights_ok(weights, max),
        codable(weights, s),
        0 <= i <= s.len(),
    ensures
        symbols_from(
            tree_for(weights, max),
            stream_form(weights, max, s),
            width_of(all_coded(weights, max, s).skip(i)) as int,
            (s.len() - i) as nat,
            have,
        ) == Ok::<Seq<u8>, ZstdErrorView>(have + s.skip(i)),
    decreases s.len() - i,
{
    let f = all_coded(weights, max, s);
    lemma_coded_fit(weights, max, s);
    if i == s.len() {
        assert(have + s.skip(i) =~= have);
        assert(f.skip(i) =~= seq![]);
    } else {
        let x = s[i] as int;
        assert(x < weights.len() && weights[x] > 0);
        let w = weights[x];
        lemma_peek(f, i, max);
        lemma_back_field(f, i);
        let v = crate::zstd_fse::peek_at(
            stream_form(weights, max, s),
            width_of(f.skip(i)) as int,
            max,
        );
        lemma_code(weights, max, x, v);
        assert((max - f[i].1) as nat == w - 1);
        lemma_symbols(weights, max, s, i + 1, have.push(s[i]));
        assert(have.push(s[i]) + s.skip(i + 1) =~= have + s.skip(i));
    }
}

/// Symbols that are written in the codes of a tree are read back, behind those before them.
pub proof fn law_stream(weights: Seq<u8>, max: nat, s: Seq<u8>, have: Seq<u8>)
    requires
        weights_ok(weights, max),
        codable(weights, s),
    ensures
        tree_of(weights.drop_last()) is Ok,
        stream_symbols(
            tree_of(weights.drop_last())->Ok_0,
            stream_form(weights, max, s),
            s.len(),
            have,
        ) == Ok::<Seq<u8>, ZstdErrorView>(have + s),
{
    lemma_tree(weights, max);
    let f = all_coded(weights, max, s);
    lemma_coded_fit(weights, max, s);
    lemma_back_bits(f);
    lemma_symbols(weights, max, s, 0, have);
    assert(f.skip(0) =~= f);
    assert(s.skip(0) =~= s);
}

proof fn lemma_parts(weights: Seq<u8>, max: nat)
    requires
        forall|x: int| 0 <= x < weights.len() ==> #[trigger] weights[x] <= max,
    ensures
        parts(weights) == lighter(weights, max + 1),
    decreases weights.len(),
{
    if weights.len() > 0 {
        let front = weights.drop_last();
        assert(weights.last() == weights[weights.len() - 1]);
        assert forall|x: int| 0 <= x < front.len() implies #[trigger] front[x] <= max by {
            assert(front[x] == weights[x]);
        }
        lemma_parts(front, max);
    }
}

/// The weights of all symbols but the last tell the last one's.
proof fn lemma_tree(weights: Seq<u8>, max: nat)
    requires
        weights_ok(weights, max),
    ensures
        tree_of(weights.drop_last()) == Ok::<HuffmanView, ZstdErrorView>(tree_for(weights, max)),
{
    let front = weights.drop_last();
    let last = weights.last();
    assert(last == weights[weights.len() - 1]);
    assert forall|x: int| 0 <= x < front.len() implies #[trigger] front[x] <= max by {
        assert(front[x] == weights[x]);
    }
    lemma_parts(front, max);
    let sum = parts(front);
    let p = pow2((last - 1) as nat);
    assert(sum + p == pow2(max));
    lemma2_to64();
    lemma_pow2_pos((last - 1) as nat);
    lemma_pow2_unfold(max);
    lemma_pow2_unfold(last as nat);
    if last - 1 < max - 1 {
        lemma_pow2_strictly_increases((last - 1) as nat, (max - 1) as nat);
    }
    assert(pow2((max - 1) as nat) <= sum < pow2(max));
    lemma_top(sum, (max - 1) as nat);
    lemma_top(p, (last - 1) as nat);
    assert(front.push(last) =~= weights);
}

/// Weights that make a tree give one.
pub proof fn lemma_tree_ok(weights: Seq<u8>, max: nat)
    requires
        weights_ok(weights, max),
    ensures
        tree_of(weights.drop_last()) is Ok,
{
    lemma_tree(weights, max);
}

/// Symbols in four streams: the sizes of the first three, then the streams.
pub open spec fn four_form(weights: Seq<u8>, max: nat, s: Seq<u8>) -> Seq<u8> {
    let each = (s.len() + 3) / 4;
    let a = stream_form(weights, max, s.take(each as int));
    let b = stream_form(weights, max, s.subrange(each as int, 2 * each as int));
    let c = stream_form(weights, max, s.subrange(2 * each as int, 3 * each as int));
    let d = stream_form(weights, max, s.skip(3 * each as int));
    le_form(a.len(), 2) + le_form(b.len(), 2) + le_form(c.len(), 2) + a + b + c + d
}

/// Whether the symbols can be written in four streams.
pub open spec fn four_fit(weights: Seq<u8>, max: nat, s: Seq<u8>) -> bool {
    let each = (s.len() + 3) / 4;
    &&& 3 * each <= s.len()
    &&& stream_form(weights, max, s.take(each as int)).len() < 0x1_0000
    &&& stream_form(weights, max, s.subrange(each as int, 2 * each as int)).len() < 0x1_0000
    &&& stream_form(weights, max, s.subrange(2 * each as int, 3 * each as int)).len() < 0x1_0000
}

proof fn lemma_codable_part(weights: Seq<u8>, s: Seq<u8>, a: int, b: int)
    requires
        codable(weights, s),
        0 <= a <= b <= s.len(),
    ensures
        codable(weights, s.subrange(a, b)),
{
    let t = s.subrange(a, b);
    assert forall|i: int| #![trigger t[i]] 0 <= i < t.len() implies t[i] < weights.len()
        && weights[t[i] as int] > 0 by {
        assert(t[i] == s[a + i]);
    }
}

/// Where four streams stand behind the sizes of the first three.
proof fn lemma_layout(a: Seq<u8>, b: Seq<u8>, c: Seq<u8>, d: Seq<u8>)
    requires
        a.len() < 0x1_0000,
        b.len() < 0x1_0000,
        c.len() < 0x1_0000,
    ensures
        ({
            let f = le_form(a.len(), 2) + le_form(b.len(), 2) + le_form(c.len(), 2) + a + b + c + d;
            let e1 = (6 + a.len()) as int;
            let e2 = (e1 + b.len()) as int;
            let e3 = (e2 + c.len()) as int;
            &&& f.len() == e3 + d.len()
            &&& le(f.subrange(0, 2)) == a.len()
            &&& le(f.subrange(2, 4)) == b.len()
            &&& le(f.subrange(4, 6)) == c.len()
            &&& f.subrange(6, e1) == a
            &&& f.subrange(e1, e2) == b
            &&& f.subrange(e2, e3) == c
            &&& f.subrange(e3, f.len() as int) == d
        }),
{
    let x = le_form(a.len(), 2);
    let y = le_form(b.len(), 2);
    let z = le_form(c.len(), 2);
    let f = x + y + z + a + b + c + d;
    lemma_pow256_values();
    law_le(a.len(), 2);
    law_le(b.len(), 2);
    law_le(c.len(), 2);
    let e1 = (6 + a.len()) as int;
    let e2 = (e1 + b.len()) as int;
    let e3 = (e2 + c.len()) as int;
    assert(f.subrange(0, 2) =~= x);
    assert(f.subrange(2, 4) =~= y);
    assert(f.subrange(4, 6) =~= z);
    assert(f.subrange(6, e1) =~= a);
    assert(f.subrange(e1, e2) =~= b);
    assert(f.subrange(e2, e3) =~= c);
    assert(f.subrange(e3, f.len() as int) =~= d);
}

/// Symbols that are written in four streams are read back.
pub proof fn law_four_streams(weights: Seq<u8>, max: nat, s: Seq<u8>)
    requires
        weights_ok(weights, max),
        codable(weights, s),
        four_fit(weights, max, s),
    ensures
        tree_of(weights.drop_last()) is Ok,
        four_streams(tree_of(weights.drop_last())->Ok_0, four_form(weights, max, s), s.len())
            == Ok::<Seq<u8>, ZstdErrorView>(s),
{
    let n = s.len() as int;
    let each = ((s.len() + 3) / 4) as int;
    let s1 = s.take(each);
    let s2 = s.subrange(each, 2 * each);
    let s3 = s.subrange(2 * each, 3 * each);
    let s4 = s.skip(3 * each);
    assert(s1 =~= s.subrange(0, each));
    assert(s4 =~= s.subrange(3 * each, n));
    lemma_codable_part(weights, s, 0, each);
    lemma_codable_part(weights, s, each, 2 * each);
    lemma_codable_part(weights, s, 2 * each, 3 * each);
    lemma_codable_part(weights, s, 3 * each, n);
    let a = stream_form(weights, max, s1);
    let b = stream_form(weights, max, s2);
    let c = stream_form(weights, max, s3);
    let d = stream_form(weights, max, s4);
    lemma_layout(a, b, c, d);
    law_stream(weights, max, s1, seq![]);
    law_stream(weights, max, s2, seq![] + s1);
    law_stream(weights, max, s3, seq![] + s1 + s2);
    law_stream(weights, max, s4, seq![] + s1 + s2 + s3);
    assert(seq![] + s1 + s2 + s3 + s4 =~= s);
}

/// Weights in four bits each, the first in the upper half of its byte, and how many there are: those
/// of all symbols but the last.
pub open spec fn weights_form(weights: Seq<u8>) -> Seq<u8> {
    let n = (weights.len() - 1) as nat;
    seq![(127 + n) as u8] + Seq::new(
        (n + 1) / 2,
        |i: int|
            (16 * weights[2 * i] + if 2 * i + 1 < n {
                weights[2 * i + 1] as int
            } else {
                0
            }) as u8,
    )
}

/// A tree is read from the weights of its symbols, whatever follows them.
pub proof fn law_tree(weights: Seq<u8>, max: nat, after: Seq<u8>)
    requires
        weights_ok(weights, max),
        weights.len() <= 129,
    ensures
        tree_of(weights.drop_last()) is Ok,
        tree_at(weights_form(weights) + after) == Ok::<(HuffmanView, int), ZstdErrorView>(
            (tree_of(weights.drop_last())->Ok_0, weights_form(weights).len() as int),
        ),
{
    lemma_tree(weights, max);
    let n = (weights.len() - 1) as nat;
    let f = weights_form(weights);
    let b = f + after;
    assert(b[0] == 127 + n);
    lemma_nibbles(weights, max, after);
}

proof fn lemma_nibbles(weights: Seq<u8>, max: nat, after: Seq<u8>)
    requires
        2 <= weights.len() <= 129,
        max <= 11,
        forall|x: int| 0 <= x < weights.len() ==> #[trigger] weights[x] <= max,
    ensures
        nibbles((weights_form(weights) + after).skip(1), (weights.len() - 1) as nat)
            == weights.drop_last(),
{
    let n = (weights.len() - 1) as nat;
    let f = weights_form(weights);
    let t = (f + after).skip(1);
    let got = nibbles(t, n);
    assert forall|i: int| 0 <= i < n implies #[trigger] got[i] == weights[i] by {
        let j = i / 2;
        let x = weights[2 * j] as int;
        let y = if 2 * j + 1 < n {
            weights[2 * j + 1] as int
        } else {
            0
        };
        assert(0 <= x <= 11 && 0 <= y <= 11);
        assert(t[j] == f[j + 1]);
        assert(f[j + 1] == (16 * x + y) as u8);
        assert(t[j] / 16 == x && t[j] % 16 == y);
        assert(i == 2 * j || i == 2 * j + 1);
    }
    assert(got =~= weights.drop_last());
}

} // verus!
