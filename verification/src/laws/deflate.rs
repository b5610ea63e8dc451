//! DEFLATE blocks in fixed and in dynamic codes: what was written is read back.
use vstd::arithmetic::div_mod::{lemma_div_denominator, lemma_fundamental_div_mod};
use vstd::arithmetic::power2::{lemma2_to64, lemma_pow2_pos, lemma_pow2_unfold, pow2};
use vstd::prelude::*;

use crate::bytes::{bit_at, bits_at};
use crate::error::PqErrorView;
use crate::gzip::{
    coded, coded_below, codes_output, copy_at, distance_base, distance_extra, length_base,
    length_extra, symbol_at, symbol_from,
};
use crate::laws::back_streams::{fields_fit, width_of, BitField};
use crate::laws::blocks::{stepped, Step};
use crate::laws::forward_streams::{forward_form, lemma_forward_field};
use crate::lz::lemma_copied;

verus! {

/// Whether the numbers stand one after the other from bit `p` on.
pub open spec fn holds(c: Seq<u8>, p: int, f: Seq<BitField>) -> bool
    decreases f.len(),
{
    f.len() == 0 || (p + f[0].1 <= 8 * c.len() && bits_at(c, p, f[0].1) == f[0].0 && holds(
        c,
        p + f[0].1,
        f.drop_first(),
    ))
}

pub proof fn lemma_holds_split(c: Seq<u8>, p: int, a: Seq<BitField>, b: Seq<BitField>)
    requires
        holds(c, p, a + b),
    ensures
        holds(c, p, a),
        holds(c, p + width_of(a), b),
    decreases a.len(),
{
    if a.len() == 0 {
        assert(a + b =~= b);
    } else {
        assert((a + b).drop_first() =~= a.drop_first() + b);
        assert((a + b)[0] == a[0]);
        lemma_holds_split(c, p + a[0].1, a.drop_first(), b);
    }
}

pub proof fn lemma_holds_within(c: Seq<u8>, p: int, f: Seq<BitField>)
    requires
        holds(c, p, f),
        p <= 8 * c.len(),
    ensures
        p + width_of(f) <= 8 * c.len(),
    decreases f.len(),
{
    if f.len() > 0 {
        lemma_holds_within(c, p + f[0].1, f.drop_first());
    }
}

/// A stream holds the numbers that were written.
pub proof fn lemma_form_holds(f: Seq<BitField>, after: Seq<u8>, i: int)
    requires
        fields_fit(f),
        0 <= i <= f.len(),
    ensures
        holds(forward_form(f) + after, width_of(f.take(i)) as int, f.skip(i)),
    decreases f.len() - i,
{
    if i < f.len() {
        lemma_forward_field(f, i, after);
        lemma_form_holds(f, after, i + 1);
        assert(f.skip(i).drop_first() =~= f.skip(i + 1));
        assert(f.skip(i)[0] == f[i]);
    } else {
        assert(f.skip(i) =~= seq![]);
    }
}

pub proof fn lemma_width_concat(a: Seq<BitField>, b: Seq<BitField>)
    ensures
        width_of(a + b) == width_of(a) + width_of(b),
    decreases a.len(),
{
    if a.len() == 0 {
        assert(a + b =~= b);
    } else {
        assert((a + b).drop_first() =~= a.drop_first() + b);
        lemma_width_concat(a.drop_first(), b);
    }
}

/// What the symbols with shorter codes take of the codes of `len` bits.
pub open spec fn shorter(lengths: Seq<u8>, len: nat) -> nat
    decreases lengths.len(),
{
    if lengths.len() == 0 {
        0
    } else {
        shorter(lengths.drop_last(), len) + if 0 < lengths.last() < len {
            pow2((len - lengths.last()) as nat)
        } else {
            0
        }
    }
}

/// How many of the symbols before `x` have a code of `len` bits.
pub open spec fn of_length(lengths: Seq<u8>, len: int, x: int) -> nat
    decreases x,
{
    if x <= 0 {
        0
    } else {
        of_length(lengths, len, x - 1) + if lengths[x - 1] == len {
            1nat
        } else {
            0
        }
    }
}

/// The canonical code of a symbol: codes of one length count up in the order of the symbols, behind
/// what the shorter codes take.
pub open spec fn canonical(lengths: Seq<u8>, x: int) -> nat {
    shorter(lengths, lengths[x] as nat) + of_length(lengths, lengths[x] as int, x)
}

/// Whether the symbol has a code, and the code has room.
pub open spec fn has_code(lengths: Seq<u8>, x: int) -> bool {
    &&& 0 <= x < lengths.len()
    &&& 1 <= lengths[x] <= 15
    &&& canonical(lengths, x) < pow2(lengths[x] as nat)
}

/// The bits of a number, the highest first.
pub open spec fn bits_down(v: nat, n: nat) -> Seq<BitField> {
    Seq::new(n, |i: int| (v / pow2((n - 1 - i) as nat) % 2, 1nat))
}

/// A symbol in its code, the highest bit first.
pub open spec fn symbol_fields(lengths: Seq<u8>, x: int) -> Seq<BitField> {
    bits_down(canonical(lengths, x), lengths[x] as nat)
}

proof fn lemma_coded_len(lengths: Seq<u8>, len: int, n: int)
    requires
        0 <= n <= lengths.len(),
    ensures
        coded_below(lengths, len, n).len() == of_length(lengths, len, n),
    decreases n,
{
    if n > 0 {
        lemma_coded_len(lengths, len, n - 1);
    }
}

proof fn lemma_coded_at(lengths: Seq<u8>, len: int, n: int, x: int)
    requires
        0 <= x < n <= lengths.len(),
        lengths[x] == len,
    ensures
        of_length(lengths, len, x) < coded_below(lengths, len, n).len(),
        coded_below(lengths, len, n)[of_length(lengths, len, x) as int] == x,
    decreases n,
{
    lemma_coded_len(lengths, len, n - 1);
    if x < n - 1 {
        lemma_coded_at(lengths, len, n - 1, x);
    }
}

proof fn lemma_of_length_prefix(lengths: Seq<u8>, len: int, x: int)
    requires
        0 <= x < lengths.len(),
    ensures
        of_length(lengths, len, x) == of_length(lengths.drop_last(), len, x),
    decreases x,
{
    if x > 0 {
        lemma_of_length_prefix(lengths, len, x - 1);
    }
}

proof fn lemma_shorter_step(lengths: Seq<u8>, len: nat)
    requires
        len >= 1,
    ensures
        shorter(lengths, len + 1) == 2 * (shorter(lengths, len) + of_length(
            lengths,
            len as int,
            lengths.len() as int,
        )),
    decreases lengths.len(),
{
    lemma2_to64();
    if lengths.len() > 0 {
        let front = lengths.drop_last();
        lemma_shorter_step(front, len);
        lemma_of_length_prefix(lengths, len as int, front.len() as int);
        let l = lengths.last();
        if 0 < l < len {
            lemma_pow2_unfold((len + 1 - l) as nat);
        }
    }
}

proof fn lemma_shorter_one(lengths: Seq<u8>)
    ensures
        shorter(lengths, 1) == 0,
    decreases lengths.len(),
{
    if lengths.len() > 0 {
        lemma_shorter_one(lengths.drop_last());
    }
}

/// The codes of `len` bits and all shorter ones lie below what starts a longer one.
proof fn lemma_prefix(lengths: Seq<u8>, len: nat, more: nat)
    requires
        len >= 1,
        more >= 1,
    ensures
        shorter(lengths, len + more) >= (shorter(lengths, len) + of_length(
            lengths,
            len as int,
            lengths.len() as int,
        )) * pow2(more),
    decreases more,
{
    lemma2_to64();
    let a = (shorter(lengths, len) + of_length(lengths, len as int, lengths.len() as int)) as int;
    if more == 1 {
        lemma_shorter_step(lengths, len);
    } else {
        lemma_prefix(lengths, len, (more - 1) as nat);
        lemma_shorter_step(lengths, (len + more - 1) as nat);
        lemma_pow2_unfold(more);
        let q = pow2((more - 1) as nat) as int;
        assert(a * (2 * q) == 2 * (a * q)) by (nonlinear_arith);
    }
}

/// The bits of a number are those of its upper part, one after the other.
proof fn lemma_bit_down(c: Seq<u8>, p: int, v: nat, n: nat, i: int)
    requires
        holds(c, p, bits_down(v, n)),
        0 <= i < n,
    ensures
        bit_at(c, p + i) == v / pow2((n - 1 - i) as nat) % 2,
        p + i < 8 * c.len(),
    decreases i,
{
    let f = bits_down(v, n);
    let head = f.take(i);
    let tail = f.skip(i);
    assert(f =~= head + tail);
    lemma_holds_split(c, p, head, tail);
    lemma_unit_width(head);
    assert(tail[0] == f[i]);
    lemma2_to64();
    assert(bits_at(c, p + i, 1) == bits_at(c, p + i, 0) + bit_at(c, p + i) * pow2(0));
    assert(bits_at(c, p + i, 0) == 0);
}

proof fn lemma_unit_width(f: Seq<BitField>)
    requires
        forall|i: int| #![trigger f[i]] 0 <= i < f.len() ==> f[i].1 == 1,
    ensures
        width_of(f) == f.len(),
    decreases f.len(),
{
    if f.len() > 0 {
        let t = f.drop_first();
        assert forall|i: int| #![trigger t[i]] 0 <= i < t.len() implies t[i].1 == 1 by {
            assert(t[i] == f[i + 1]);
        }
        lemma_unit_width(t);
    }
}

proof fn lemma_symbol(c: Seq<u8>, lengths: Seq<u8>, p: int, x: int, l: nat)
    requires
        has_code(lengths, x),
        holds(c, p, symbol_fields(lengths, x)),
        1 <= l <= lengths[x],
    ensures
        symbol_from(
            c,
            lengths,
            p + l - 1,
            l as int,
            canonical(lengths, x) as int / pow2((lengths[x] + 1 - l) as nat) as int,
            shorter(lengths, l) as int,
        ) == Ok::<(int, int), PqErrorView>((x, p + lengths[x])),
    decreases lengths[x] - l,
{
    let n = lengths[x] as nat;
    let v = canonical(lengths, x);
    let d = (n - l) as nat;
    lemma_bit_down(c, p, v, n, l - 1);
    lemma_pow2_unfold((d + 1) as nat);
    lemma_pow2_pos(d);
    let q = v as int / pow2(d) as int;
    let pd = pow2(d) as int;
    lemma_div_denominator(v as int, pd, 2);
    assert(pd * 2 == pow2((d + 1) as nat));
    lemma_fundamental_div_mod(q, 2);
    let here = 2 * (v as int / pow2((d + 1) as nat) as int) + bit_at(c, p + l - 1);
    assert(here == q);
    let syms = coded(lengths, l as int);
    lemma_coded_len(lengths, l as int, lengths.len() as int);
    let first = shorter(lengths, l) as int;
    if l == n {
        lemma2_to64();
        assert(v as int / 1 == v);
        lemma_coded_at(lengths, l as int, lengths.len() as int, x);
    } else {
        lemma_prefix(lengths, l, d);
        lemma_fundamental_div_mod(v as int, pd);
        let r = v as int % pd;
        let s = first + syms.len();
        assert(q >= s) by (nonlinear_arith)
            requires
                v as int == pd * q + r,
                0 <= r < pd,
                v as int >= s * pd,
                pd > 0,
        ;
        lemma_shorter_step(lengths, l);
        lemma_symbol(c, lengths, p, x, l + 1);
    }
}

/// A symbol is read back from its canonical code.
pub proof fn law_symbol(c: Seq<u8>, lengths: Seq<u8>, p: int, x: int)
    requires
        has_code(lengths, x),
        holds(c, p, symbol_fields(lengths, x)),
    ensures
        symbol_at(c, lengths, p) == Ok::<(int, int), PqErrorView>((x, p + lengths[x])),
        width_of(symbol_fields(lengths, x)) == lengths[x],
{
    let n = lengths[x] as nat;
    lemma_shorter_one(lengths);
    lemma_symbol(c, lengths, p, x, 1);
    lemma_unit_width(symbol_fields(lengths, x));
    assert(canonical(lengths, x) as int / pow2(n) as int == 0) by {
        vstd::arithmetic::div_mod::lemma_basic_div(canonical(lengths, x) as int, pow2(n) as int);
    }
}

/// The codes of lengths and distances divide all of them among them: what a code stands for follows
/// what the one before it does. Lengths start at 3 and end at 258, which has a code of its own;
/// distances start at 1 and end at 32768.
pub proof fn law_copy_codes(s: int)
    ensures
        length_base(257) == 3,
        length_extra(257) == 0,
        257 <= s < 284 ==> length_base(s + 1) == length_base(s) + pow2(length_extra(s) as nat),
        261 <= s <= 280 ==> length_extra(s + 4) == length_extra(s) + 1,
        length_base(284) + pow2(length_extra(284) as nat) == 259,
        length_base(285) == 258,
        length_extra(285) == 0,
        distance_base(0) == 1,
        distance_extra(0) == 0,
        0 <= s < 29 ==> distance_base(s + 1) == distance_base(s) + pow2(distance_extra(s) as nat),
        2 <= s < 28 ==> distance_extra(s + 2) == distance_extra(s) + 1,
        distance_base(29) + pow2(distance_extra(29) as nat) == 32769,
{
    lemma2_to64();
    assert(length_extra(284) == 5);
    assert(length_base(284) == 227) by {
        assert(pow2(5) == 32);
        assert((4 + (284 - 265) % 4) * 32 + 3 == 227);
    }
    assert(distance_extra(29) == 13);
    assert(distance_base(29) == (2 + 29int % 2) * pow2(13) + 1);
    assert(pow2(13) == 0x2000);
    assert(29int % 2 == 1);
    assert(3 * pow2(13) == 24576);
    if 257 <= s < 284 {
        lemma_length_step(s);
    }
    if 0 <= s < 29 {
        lemma_distance_step(s);
    }
}

proof fn lemma_length_step(s: int)
    requires
        257 <= s < 284,
    ensures
        length_base(s + 1) == length_base(s) + pow2(length_extra(s) as nat),
{
    lemma2_to64();
    if s == 264 {
        assert(length_extra(265) == 1 && pow2(1) == 2);
        assert(length_base(265) == 4 * 2 + 3);
    } else if s >= 265 {
        let e = length_extra(s);
        let q = pow2(e as nat) as int;
        let k = 4 + (s - 265) % 4;
        assert(length_base(s) == k * q + 3);
        if (s - 265) % 4 == 3 {
            assert(length_extra(s + 1) == e + 1);
            lemma_pow2_unfold((e + 1) as nat);
            assert(length_base(s + 1) == 4 * pow2((e + 1) as nat) + 3);
            assert(4 * (2 * q) == 7 * q + q) by (nonlinear_arith);
        } else {
            assert(length_extra(s + 1) == e);
            assert((s + 1 - 265) % 4 == (s - 265) % 4 + 1);
            assert((k + 1) * q == k * q + q) by (nonlinear_arith);
        }
    }
}

proof fn lemma_distance_step(s: int)
    requires
        0 <= s < 29,
    ensures
        distance_base(s + 1) == distance_base(s) + pow2(distance_extra(s) as nat),
{
    lemma2_to64();
    if s == 3 {
        assert(distance_extra(4) == 1 && pow2(1) == 2);
        assert(distance_base(4) == 2 * 2 + 1);
    } else if s >= 4 {
        let e = distance_extra(s);
        let q = pow2(e as nat) as int;
        if s % 2 == 1 {
            assert(distance_extra(s + 1) == e + 1);
            lemma_pow2_unfold((e + 1) as nat);
            assert(distance_base(s + 1) == 2 * pow2((e + 1) as nat) + 1);
            assert(distance_base(s) == 3 * q + 1);
        } else {
            assert(distance_extra(s + 1) == e);
            assert(distance_base(s + 1) == 3 * q + 1);
            assert(distance_base(s) == 2 * q + 1);
        }
    }
}

/// A step of a block: a byte, or a copy with the symbols of its length and its distance.
pub enum Token {
    Byte(u8),
    Copy { len: nat, len_symbol: int, dist: nat, dist_symbol: int },
}

/// Whether the step can be written in the codes.
pub open spec fn token_ok(lits: Seq<u8>, dists: Seq<u8>, t: Token) -> bool {
    match t {
        Token::Byte(b) => has_code(lits, b as int),
        Token::Copy { len, len_symbol, dist, dist_symbol } => {
            &&& 257 <= len_symbol <= 285
            &&& 0 <= dist_symbol <= 29
            &&& has_code(lits, len_symbol)
            &&& has_code(dists, dist_symbol)
            &&& length_base(len_symbol) <= len < length_base(len_symbol) + pow2(
                length_extra(len_symbol) as nat,
            )
            &&& distance_base(dist_symbol) <= dist < distance_base(dist_symbol) + pow2(
                distance_extra(dist_symbol) as nat,
            )
        },
    }
}

/// A step in the codes.
pub open spec fn token_fields(lits: Seq<u8>, dists: Seq<u8>, t: Token) -> Seq<BitField> {
    match t {
        Token::Byte(b) => symbol_fields(lits, b as int),
        Token::Copy { len, len_symbol, dist, dist_symbol } => symbol_fields(lits, len_symbol) + (
        seq![((len - length_base(len_symbol)) as nat, length_extra(len_symbol) as nat)] + (
        symbol_fields(dists, dist_symbol) + seq![
            ((dist - distance_base(dist_symbol)) as nat, distance_extra(dist_symbol) as nat),
        ])),
    }
}

/// The output after a step.
pub open spec fn token_output(out: Seq<u8>, t: Token) -> Seq<u8> {
    match t {
        Token::Byte(b) => stepped(out, Step::Literal(seq![b])),
        Token::Copy { len, dist, .. } => stepped(out, Step::Copy { offset: dist, len }),
    }
}

/// Steps in the codes, and the mark of the block's end.
pub open spec fn tokens_fields(lits: Seq<u8>, dists: Seq<u8>, s: Seq<Token>, i: int) -> Seq<BitField>
    decreases s.len() - i,
{
    if i >= s.len() {
        symbol_fields(lits, 256)
    } else {
        token_fields(lits, dists, s[i]) + tokens_fields(lits, dists, s, i + 1)
    }
}

/// The output after the steps from `i` on.
pub open spec fn tokens_output(s: Seq<Token>, i: int, out: Seq<u8>) -> Seq<u8>
    decreases s.len() - i,
{
    if i >= s.len() {
        out
    } else {
        tokens_output(s, i + 1, token_output(out, s[i]))
    }
}

/// Whether the steps from `i` on can be written: each copy reaches back to what is there.
pub open spec fn tokens_ok(lits: Seq<u8>, dists: Seq<u8>, s: Seq<Token>, i: int, out: Seq<u8>) -> bool
    decreases s.len() - i,
{
    if i >= s.len() {
        has_code(lits, 256)
    } else {
        &&& token_ok(lits, dists, s[i])
        &&& s[i] matches Token::Copy { dist, .. } ==> 1 <= dist <= out.len()
        &&& tokens_ok(lits, dists, s, i + 1, token_output(out, s[i]))
    }
}

proof fn lemma_tokens_grow(lits: Seq<u8>, dists: Seq<u8>, s: Seq<Token>, i: int, out: Seq<u8>)
    requires
        tokens_ok(lits, dists, s, i, out),
    ensures
        out.len() <= tokens_output(s, i, out).len(),
    decreases s.len() - i,
{
    if i < s.len() {
        lemma_tokens_grow(lits, dists, s, i + 1, token_output(out, s[i]));
        match s[i] {
            Token::Byte(_) => {},
            Token::Copy { len, dist, .. } => lemma_copied(out, dist as int, len),
        }
    }
}

proof fn lemma_copy_read(
    c: Seq<u8>,
    lits: Seq<u8>,
    dists: Seq<u8>,
    p: int,
    len: nat,
    len_symbol: int,
    dist: nat,
    dist_symbol: int,
)
    requires
        0 <= p <= 8 * c.len(),
        ({
            let t = Token::Copy { len, len_symbol, dist, dist_symbol };
            token_ok(lits, dists, t) && holds(c, p, token_fields(lits, dists, t))
        }),
    ensures
        ({
            let t = Token::Copy { len, len_symbol, dist, dist_symbol };
            let p1 = p + lits[len_symbol];
            let p2 = p + width_of(token_fields(lits, dists, t));
            &&& symbol_at(c, lits, p) == Ok::<(int, int), PqErrorView>((len_symbol, p1))
            &&& copy_at(c, dists, len_symbol, p1) == Ok::<(int, int, int), PqErrorView>(
                (len as int, dist as int, p2),
            )
            &&& p < p1 <= p2 <= 8 * c.len()
        }),
{
    let a = symbol_fields(lits, len_symbol);
    let b = seq![((len - length_base(len_symbol)) as nat, length_extra(len_symbol) as nat)];
    let d = symbol_fields(dists, dist_symbol);
    let e = seq![
        ((dist - distance_base(dist_symbol)) as nat, distance_extra(dist_symbol) as nat),
    ];
    lemma_holds_split(c, p, a, b + (d + e));
    law_symbol(c, lits, p, len_symbol);
    let p1 = p + lits[len_symbol];
    lemma_holds_split(c, p1, b, d + e);
    assert(b.drop_first() =~= seq![]);
    assert(width_of(b) == b[0].1 + width_of(b.drop_first()));
    let q = p1 + b[0].1;
    lemma_holds_split(c, q, d, e);
    law_symbol(c, dists, q, dist_symbol);
    assert(e.drop_first() =~= seq![]);
    assert(width_of(e) == e[0].1 + width_of(e.drop_first()));
    lemma_width_concat(a, b + (d + e));
    lemma_width_concat(b, d + e);
    lemma_width_concat(d, e);
}

proof fn lemma_tokens(
    c: Seq<u8>,
    lits: Seq<u8>,
    dists: Seq<u8>,
    p: int,
    s: Seq<Token>,
    i: int,
    out: Seq<u8>,
    n: nat,
)
    requires
        0 <= p <= 8 * c.len(),
        0 <= i <= s.len(),
        holds(c, p, tokens_fields(lits, dists, s, i)),
        tokens_ok(lits, dists, s, i, out),
        tokens_output(s, i, out).len() <= n,
    ensures
        codes_output(c, lits, dists, p, out, n) == Ok::<(Seq<u8>, int), PqErrorView>(
            (tokens_output(s, i, out), p + width_of(tokens_fields(lits, dists, s, i))),
        ),
    decreases s.len() - i,
{
    lemma_holds_within(c, p, tokens_fields(lits, dists, s, i));
    if i == s.len() {
        law_symbol(c, lits, p, 256);
    } else {
        let t = s[i];
        let f = token_fields(lits, dists, t);
        let rest = tokens_fields(lits, dists, s, i + 1);
        let out2 = token_output(out, t);
        lemma_holds_split(c, p, f, rest);
        lemma_width_concat(f, rest);
        lemma_holds_within(c, p, f);
        lemma_tokens_grow(lits, dists, s, i + 1, out2);
        lemma_tokens(c, lits, dists, p + width_of(f), s, i + 1, out2, n);
        match t {
            Token::Byte(b) => {
                law_symbol(c, lits, p, b as int);
                assert(out.push(b) =~= out + seq![b]);
            },
            Token::Copy { len, len_symbol, dist, dist_symbol } => {
                lemma_copy_read(c, lits, dists, p, len, len_symbol, dist, dist_symbol);
                lemma_copied(out, dist as int, len);
            },
        }
    }
}

/// Bytes and copies that are written in canonical codes are read back, up to the mark of the block's
/// end.
pub proof fn law_codes(
    c: Seq<u8>,
    lits: Seq<u8>,
    dists: Seq<u8>,
    p: int,
    s: Seq<Token>,
    out: Seq<u8>,
    n: nat,
)
    requires
        0 <= p <= 8 * c.len(),
        holds(c, p, tokens_fields(lits, dists, s, 0)),
        tokens_ok(lits, dists, s, 0, out),
        tokens_output(s, 0, out).len() <= n,
    ensures
        codes_output(c, lits, dists, p, out, n) == Ok::<(Seq<u8>, int), PqErrorView>(
            (tokens_output(s, 0, out), p + width_of(tokens_fields(lits, dists, s, 0))),
        ),
{
    lemma_tokens(c, lits, dists, p, s, 0, out, n);
}

} // verus!
