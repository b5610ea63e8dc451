//! Gzip members of any blocks: what was written is read back.
use vstd::arithmetic::power2::{lemma2_to64, pow2};
use vstd::prelude::*;

use crate::bytes::{bit_at, bits_at, le, lemma_pow256_values};
use crate::error::PqErrorView;
use crate::gzip::{
    after_extra, after_text, after_zero, block_content, blocks_output, content_start, copies, crc32,
    dynamic_lengths, field_at, fixed_dists, fixed_lits, length_lengths, length_symbol, lengths_from,
    member_output, stored_output, GZIP_MAX_DECOMP,
};
use crate::laws::back_streams::{width_of, BitField};
use crate::laws::blocks::lemma_skip;
use crate::laws::deflate::{
    has_code, holds, law_codes, law_symbol, lemma_holds_split, lemma_holds_within,
    lemma_width_concat, symbol_fields, tokens_fields, tokens_ok, tokens_output, Token,
};
use crate::laws::numbers::{law_le, le_form};

verus! {

/// Some of the code lengths of a dynamic block.
pub enum LengthOp {
    /// A length.
    One(u8),
    /// The last length so many times more.
    Repeat(nat),
    /// A few zeros.
    Zeros(nat),
    /// Many zeros.
    ManyZeros(nat),
}

/// The symbol of a step, what is added to it, and how many bits that takes.
pub open spec fn op_code(op: LengthOp) -> (int, nat, nat) {
    match op {
        LengthOp::One(v) => (v as int, 0, 0),
        LengthOp::Repeat(n) => (16, (n - 3) as nat, 2),
        LengthOp::Zeros(n) => (17, (n - 3) as nat, 3),
        LengthOp::ManyZeros(n) => (18, (n - 11) as nat, 7),
    }
}

/// A step in the code for code lengths.
pub open spec fn op_fields(code: Seq<u8>, op: LengthOp) -> Seq<BitField> {
    let (x, v, w) = op_code(op);
    if w == 0 {
        symbol_fields(code, x)
    } else {
        symbol_fields(code, x) + seq![(v, w)]
    }
}

/// The code lengths after a step.
pub open spec fn op_lengths(have: Seq<u8>, op: LengthOp) -> Seq<u8> {
    match op {
        LengthOp::One(v) => have.push(v),
        LengthOp::Repeat(n) => have + Seq::new(n, |i: int| have.last()),
        LengthOp::Zeros(n) => have + Seq::new(n, |i: int| 0u8),
        LengthOp::ManyZeros(n) => have + Seq::new(n, |i: int| 0u8),
    }
}

/// Whether a step can be taken.
pub open spec fn op_ok(code: Seq<u8>, have: Seq<u8>, op: LengthOp) -> bool {
    &&& has_code(code, op_code(op).0)
    &&& match op {
        LengthOp::One(v) => v < 16,
        LengthOp::Repeat(n) => 3 <= n <= 6 && have.len() > 0,
        LengthOp::Zeros(n) => 3 <= n <= 10,
        LengthOp::ManyZeros(n) => 11 <= n <= 138,
    }
}

/// The steps from `i` on in the code for code lengths.
pub open spec fn ops_fields(code: Seq<u8>, ops: Seq<LengthOp>, i: int) -> Seq<BitField>
    decreases ops.len() - i,
{
    if i >= ops.len() {
        seq![]
    } else {
        op_fields(code, ops[i]) + ops_fields(code, ops, i + 1)
    }
}

/// The code lengths after the steps from `i` on.
pub open spec fn ops_lengths(ops: Seq<LengthOp>, i: int, have: Seq<u8>) -> Seq<u8>
    decreases ops.len() - i,
{
    if i >= ops.len() {
        have
    } else {
        ops_lengths(ops, i + 1, op_lengths(have, ops[i]))
    }
}

/// Whether the steps from `i` on can be taken, and give `total` code lengths, no sooner than with the
/// last.
pub open spec fn ops_ok(code: Seq<u8>, ops: Seq<LengthOp>, i: int, have: Seq<u8>, total: int) -> bool
    decreases ops.len() - i,
{
    if i >= ops.len() {
        have.len() == total
    } else {
        &&& have.len() < total
        &&& op_ok(code, have, ops[i])
        &&& op_lengths(have, ops[i]).len() <= total
        &&& ops_ok(code, ops, i + 1, op_lengths(have, ops[i]), total)
    }
}

proof fn lemma_ops(
    c: Seq<u8>,
    code: Seq<u8>,
    p: int,
    ops: Seq<LengthOp>,
    i: int,
    have: Seq<u8>,
    total: int,
)
    requires
        0 <= p <= 8 * c.len(),
        0 <= i <= ops.len(),
        holds(c, p, ops_fields(code, ops, i)),
        ops_ok(code, ops, i, have, total),
    ensures
        lengths_from(c, code, p, have, total) == Ok::<(Seq<u8>, int), PqErrorView>(
            (ops_lengths(ops, i, have), p + width_of(ops_fields(code, ops, i))),
        ),
    decreases ops.len() - i,
{
    if i < ops.len() {
        let op = ops[i];
        let f = op_fields(code, op);
        let rest = ops_fields(code, ops, i + 1);
        let (x, v, w) = op_code(op);
        let next = op_lengths(have, op);
        lemma_holds_split(c, p, f, rest);
        lemma_width_concat(f, rest);
        lemma_holds_within(c, p, f);
        lemma_ops(c, code, p + width_of(f), ops, i + 1, next, total);
        if w == 0 {
            law_symbol(c, code, p, x);
        } else {
            let e = seq![(v, w)];
            lemma_holds_split(c, p, symbol_fields(code, x), e);
            lemma_width_concat(symbol_fields(code, x), e);
            law_symbol(c, code, p, x);
            assert(e.drop_first() =~= seq![]);
            assert(width_of(e) == w + width_of(e.drop_first()));
            let p1 = p + code[x];
            assert(field_at(c, p1, w) == Ok::<(int, int), PqErrorView>((v as int, p1 + w)));
            match op {
                LengthOp::Repeat(n) => {
                    assert(next =~= have + copies(have.last(), n as int));
                },
                LengthOp::Zeros(n) => {
                    assert(next =~= have + copies(0, n as int));
                },
                LengthOp::ManyZeros(n) => {
                    assert(next =~= have + copies(0, n as int));
                },
                LengthOp::One(_) => {},
            }
        }
    }
}

/// The symbols of the code for code lengths in the order in which their code lengths are written.
pub open spec fn length_order() -> Seq<int> {
    seq![16, 17, 18, 0, 8, 7, 9, 6, 10, 5, 11, 4, 12, 3, 13, 2, 14, 1, 15]
}

/// The first `k` of the code lengths of the code for code lengths, in three bits each.
pub open spec fn order_fields(code: Seq<u8>, k: nat) -> Seq<BitField> {
    Seq::new(k, |i: int| (code[length_order()[i]] as nat, 3nat))
}

/// The code lengths of which the first `k` in order are written: the others are zero.
spec fn masked(code: Seq<u8>, k: nat) -> Seq<u8> {
    Seq::new(
        19,
        |x: int|
            if exists|j: int| 0 <= j < k && #[trigger] length_order()[j] == x {
                code[x]
            } else {
                0u8
            },
    )
}

proof fn lemma_order(i: int)
    requires
        0 <= i < 19,
    ensures
        length_symbol(i) == length_order()[i],
        0 <= length_order()[i] < 19,
{
}

proof fn lemma_length_lengths(c: Seq<u8>, p: int, code: Seq<u8>, n: nat, k: nat)
    requires
        0 <= p <= 8 * c.len(),
        code.len() == 19,
        k <= n <= 19,
        holds(c, p, order_fields(code, n)),
    ensures
        length_lengths(c, p, k) == Ok::<(Seq<u8>, int), PqErrorView>(
            (masked(code, k), p + 3 * k),
        ),
        width_of(order_fields(code, k)) == 3 * k,
    decreases k,
{
    let f = order_fields(code, n);
    if k == 0 {
        assert(masked(code, 0) =~= Seq::new(19, |i: int| 0u8));
    } else {
        let m = (k - 1) as nat;
        lemma_length_lengths(c, p, code, n, m);
        let head = order_fields(code, m);
        assert(f =~= head + f.skip(m as int));
        lemma_holds_split(c, p, head, f.skip(m as int));
        assert(f.skip(m as int)[0] == f[m as int]);
        lemma_order(m as int);
        let x = length_order()[m as int];
        assert(masked(code, k) =~= masked(code, m).update(x, code[x])) by {
            assert forall|y: int| 0 <= y < 19 implies masked(code, k)[y] == masked(code, m).update(
                x,
                code[x],
            )[y] by {
                if y == x {
                    assert(length_order()[m as int] == x);
                } else {
                    if exists|j: int| 0 <= j < k && #[trigger] length_order()[j] == y {
                        let j = choose|j: int| 0 <= j < k && #[trigger] length_order()[j] == y;
                        assert(j != m);
                    }
                }
            }
        }
        let one = seq![f[m as int]];
        assert(order_fields(code, k) =~= head + one);
        lemma_width_concat(head, one);
        assert(one.drop_first() =~= seq![]);
        assert(width_of(one) == 3 + width_of(one.drop_first()));
    }
}

/// The codes of a dynamic block: how many literal and distance symbols there are, how many code
/// lengths of the code for code lengths are written, these, and the steps that give the others.
pub struct Codes {
    pub lits: nat,
    pub dists: nat,
    pub written: nat,
    pub code: Seq<u8>,
    pub ops: Seq<LengthOp>,
}

/// All code lengths of the block.
pub open spec fn all_lengths(k: Codes) -> Seq<u8> {
    ops_lengths(k.ops, 0, seq![])
}

/// The header of a dynamic block.
pub open spec fn codes_fields(k: Codes) -> Seq<BitField> {
    seq![((k.lits - 257) as nat, 5nat)] + (seq![((k.dists - 1) as nat, 5nat)] + (seq![
        ((k.written - 4) as nat, 4nat),
    ] + (order_fields(k.code, k.written) + ops_fields(k.code, k.ops, 0))))
}

/// Whether the codes can be written so.
pub open spec fn codes_ok(k: Codes) -> bool {
    &&& 257 <= k.lits <= 286
    &&& 1 <= k.dists <= 30
    &&& 4 <= k.written <= 19
    &&& k.code.len() == 19
    &&& forall|x: int| 0 <= x < 19 ==> #[trigger] k.code[x] < 8
    &&& forall|j: int| k.written <= j < 19 ==> k.code[#[trigger] length_order()[j]] == 0
    &&& ops_ok(k.code, k.ops, 0, seq![], (k.lits + k.dists) as int)
    &&& all_lengths(k)[256] > 0
}

proof fn lemma_in_order(x: int)
    requires
        0 <= x < 19,
    ensures
        exists|j: int| 0 <= j < 19 && #[trigger] length_order()[j] == x,
{
    let o = length_order();
    if x >= 16 {
        assert(o[x - 16] == x);
    } else if x == 0 {
        assert(o[3] == 0);
    } else if x >= 8 {
        assert(o[4 + 2 * (x - 8)] == x);
    } else {
        assert(o[5 + 2 * (7 - x)] == x);
    }
}

proof fn lemma_one_field(c: Seq<u8>, p: int, x: BitField, rest: Seq<BitField>)
    requires
        holds(c, p, seq![x] + rest),
    ensures
        bits_at(c, p, x.1) == x.0,
        p + x.1 <= 8 * c.len(),
        holds(c, p + x.1, rest),
        width_of(seq![x] + rest) == x.1 + width_of(rest),
{
    let f = seq![x] + rest;
    assert(f.drop_first() =~= rest);
    assert(f[0] == x);
}

/// The codes of a dynamic block are read back from its header.
pub proof fn law_dynamic_codes(c: Seq<u8>, p: int, k: Codes)
    requires
        0 <= p,
        codes_ok(k),
        holds(c, p, codes_fields(k)),
    ensures
        dynamic_lengths(c, p) == Ok::<(Seq<u8>, Seq<u8>, int), PqErrorView>(
            (
                all_lengths(k).take(k.lits as int),
                all_lengths(k).skip(k.lits as int),
                p + width_of(codes_fields(k)),
            ),
        ),
{
    let a = ((k.lits - 257) as nat, 5nat);
    let b = ((k.dists - 1) as nat, 5nat);
    let d = ((k.written - 4) as nat, 4nat);
    let e = order_fields(k.code, k.written);
    let f = ops_fields(k.code, k.ops, 0);
    lemma_one_field(c, p, a, seq![b] + (seq![d] + (e + f)));
    lemma_one_field(c, p + 5, b, seq![d] + (e + f));
    lemma_one_field(c, p + 10, d, e + f);
    lemma_holds_split(c, p + 14, e, f);
    lemma_length_lengths(c, p + 14, k.code, k.written, k.written);
    lemma_width_concat(e, f);
    lemma_holds_within(c, p + 14, e);
    assert(masked(k.code, k.written) =~= k.code) by {
        assert forall|x: int| 0 <= x < 19 implies masked(k.code, k.written)[x] == k.code[x] by {
            lemma_in_order(x);
            let j = choose|j: int| 0 <= j < 19 && #[trigger] length_order()[j] == x;
            assert(length_order()[j] == x);
        }
    }
    lemma_ops(c, k.code, p + 14 + 3 * k.written, k.ops, 0, seq![], (k.lits + k.dists) as int);
}

/// A block of a DEFLATE stream.
pub enum DBlock {
    /// Bytes as they are.
    Stored(Seq<u8>),
    /// Steps in the codes that the format fixes.
    Fixed(Seq<Token>),
    /// Steps in codes of the block's own.
    Dynamic(Codes, Seq<Token>),
}

/// The lengths of the fixed literal codes: 8 bits up to 143, 9 up to 255, 7 up to 279, then 8.
pub open spec fn fixed_literals() -> Seq<u8> {
    Seq::new(144, |i: int| 8u8) + Seq::new(112, |i: int| 9u8) + Seq::new(24, |i: int| 7u8)
        + Seq::new(8, |i: int| 8u8)
}

/// The lengths of the fixed distance codes: 5 bits each.
pub open spec fn fixed_distances() -> Seq<u8> {
    Seq::new(30, |i: int| 5u8)
}

/// The codes of a block's literals.
pub open spec fn literal_codes(b: DBlock) -> Seq<u8> {
    match b {
        DBlock::Dynamic(k, _) => all_lengths(k).take(k.lits as int),
        _ => fixed_literals(),
    }
}

/// The codes of a block's distances.
pub open spec fn distance_codes(b: DBlock) -> Seq<u8> {
    match b {
        DBlock::Dynamic(k, _) => all_lengths(k).skip(k.lits as int),
        _ => fixed_distances(),
    }
}

/// The number of a block's type.
pub open spec fn block_kind(b: DBlock) -> nat {
    match b {
        DBlock::Stored(_) => 0,
        DBlock::Fixed(_) => 1,
        DBlock::Dynamic(..) => 2,
    }
}

/// What stands behind the header of a block that is not stored.
pub open spec fn block_fields(b: DBlock) -> Seq<BitField> {
    match b {
        DBlock::Stored(_) => seq![],
        DBlock::Fixed(s) => tokens_fields(literal_codes(b), distance_codes(b), s, 0),
        DBlock::Dynamic(k, s) => codes_fields(k) + tokens_fields(
            literal_codes(b),
            distance_codes(b),
            s,
            0,
        ),
    }
}

/// The next whole byte.
pub open spec fn whole(p: int) -> int {
    (p + 7) / 8
}

/// The bit behind the block whose header starts at bit `p`.
pub open spec fn block_end(b: DBlock, p: int) -> int {
    match b {
        DBlock::Stored(s) => 8 * (whole(p + 3) + 4 + s.len()),
        _ => p + 3 + width_of(block_fields(b)),
    }
}

/// Whether the block stands at bit `p`: whether it is the last, its type, and its content. A stored
/// block goes on at the next whole byte with its length, the length's complement and its bytes.
pub open spec fn block_stands(c: Seq<u8>, p: int, b: DBlock, last: bool) -> bool {
    &&& 0 <= p
    &&& p + 3 <= 8 * c.len()
    &&& bits_at(c, p, 1) == (if last {
        1nat
    } else {
        0
    })
    &&& bits_at(c, p + 1, 2) == block_kind(b)
    &&& match b {
        DBlock::Stored(s) => {
            let at = whole(p + 3);
            &&& s.len() <= 0xffff
            &&& at + 4 + s.len() <= c.len()
            &&& c.subrange(at, at + 2) == le_form(s.len(), 2)
            &&& c.subrange(at + 2, at + 4) == le_form((0xffff - s.len()) as nat, 2)
            &&& c.subrange(at + 4, at + 4 + s.len()) == s
        },
        _ => holds(c, p + 3, block_fields(b)),
    }
}

/// The output after a block.
pub open spec fn block_result(b: DBlock, out: Seq<u8>) -> Seq<u8> {
    match b {
        DBlock::Stored(s) => out + s,
        DBlock::Fixed(s) => tokens_output(s, 0, out),
        DBlock::Dynamic(_, s) => tokens_output(s, 0, out),
    }
}

/// Whether a block can be written so.
pub open spec fn block_ok(b: DBlock, out: Seq<u8>) -> bool {
    match b {
        DBlock::Stored(_) => true,
        DBlock::Fixed(s) => tokens_ok(literal_codes(b), distance_codes(b), s, 0, out),
        DBlock::Dynamic(k, s) => codes_ok(k) && tokens_ok(
            literal_codes(b),
            distance_codes(b),
            s,
            0,
            out,
        ),
    }
}

proof fn lemma_stored(c: Seq<u8>, p: int, s: Seq<u8>, last: bool, out: Seq<u8>, n: nat)
    requires
        block_stands(c, p, DBlock::Stored(s), last),
        (out + s).len() <= n,
    ensures
        stored_output(c, p + 3, out, n) == Ok::<(Seq<u8>, int), PqErrorView>(
            (out + s, block_end(DBlock::Stored(s), p)),
        ),
{
    law_le(s.len(), 2);
    law_le((0xffff - s.len()) as nat, 2);
    lemma_pow256_values();
}

proof fn lemma_fixed(c: Seq<u8>, p: int, s: Seq<Token>, last: bool, out: Seq<u8>, n: nat)
    requires
        block_stands(c, p, DBlock::Fixed(s), last),
        block_ok(DBlock::Fixed(s), out),
        tokens_output(s, 0, out).len() <= n,
    ensures
        block_content(c, 1, p + 3, out, n) == Ok::<(Seq<u8>, int), PqErrorView>(
            (tokens_output(s, 0, out), block_end(DBlock::Fixed(s), p)),
        ),
        block_end(DBlock::Fixed(s), p) <= 8 * c.len(),
{
    assert(fixed_lits() =~= fixed_literals());
    assert(fixed_dists() =~= fixed_distances());
    law_codes(c, fixed_lits(), fixed_dists(), p + 3, s, out, n);
    lemma_holds_within(c, p + 3, block_fields(DBlock::Fixed(s)));
}

proof fn lemma_dynamic(c: Seq<u8>, p: int, k: Codes, s: Seq<Token>, last: bool, out: Seq<u8>, n: nat)
    requires
        block_stands(c, p, DBlock::Dynamic(k, s), last),
        block_ok(DBlock::Dynamic(k, s), out),
        tokens_output(s, 0, out).len() <= n,
    ensures
        block_content(c, 2, p + 3, out, n) == Ok::<(Seq<u8>, int), PqErrorView>(
            (tokens_output(s, 0, out), block_end(DBlock::Dynamic(k, s), p)),
        ),
        block_end(DBlock::Dynamic(k, s), p) <= 8 * c.len(),
{
    let b = DBlock::Dynamic(k, s);
    let lits = literal_codes(b);
    let dists = distance_codes(b);
    let head = codes_fields(k);
    let rest = tokens_fields(lits, dists, s, 0);
    lemma_holds_split(c, p + 3, head, rest);
    lemma_width_concat(head, rest);
    lemma_holds_within(c, p + 3, head);
    lemma_holds_within(c, p + 3, block_fields(b));
    law_dynamic_codes(c, p + 3, k);
    law_codes(c, lits, dists, p + 3 + width_of(head), s, out, n);
}

proof fn lemma_first_bit(c: Seq<u8>, p: int)
    ensures
        bits_at(c, p, 1) == bit_at(c, p),
{
    lemma2_to64();
    assert(bits_at(c, p, 1) == bits_at(c, p, 0) + bit_at(c, p) * pow2(0));
    assert(bits_at(c, p, 0) == 0);
}

proof fn lemma_block(c: Seq<u8>, p: int, b: DBlock, last: bool, out: Seq<u8>, n: nat)
    requires
        block_stands(c, p, b, last),
        block_ok(b, out),
        block_result(b, out).len() <= n,
    ensures
        block_content(c, bits_at(c, p + 1, 2) as int, p + 3, out, n) == Ok::<
            (Seq<u8>, int),
            PqErrorView,
        >((block_result(b, out), block_end(b, p))),
        bit_at(c, p) == 1 <==> last,
        p < block_end(b, p) <= 8 * c.len(),
{
    lemma_first_bit(c, p);
    match b {
        DBlock::Stored(s) => lemma_stored(c, p, s, last, out, n),
        DBlock::Fixed(s) => lemma_fixed(c, p, s, last, out, n),
        DBlock::Dynamic(k, s) => lemma_dynamic(c, p, k, s, last, out, n),
    }
}

/// Whether the blocks from `i` on stand one after the other from bit `p` on.
pub open spec fn blocks_stand(c: Seq<u8>, p: int, s: Seq<DBlock>, i: int) -> bool
    decreases s.len() - i,
{
    i >= s.len() || (block_stands(c, p, s[i], i + 1 == s.len()) && blocks_stand(
        c,
        block_end(s[i], p),
        s,
        i + 1,
    ))
}

/// The bit behind the blocks from `i` on.
pub open spec fn blocks_end(p: int, s: Seq<DBlock>, i: int) -> int
    decreases s.len() - i,
{
    if i >= s.len() {
        p
    } else {
        blocks_end(block_end(s[i], p), s, i + 1)
    }
}

/// The output after the blocks from `i` on.
pub open spec fn blocks_result(s: Seq<DBlock>, i: int, out: Seq<u8>) -> Seq<u8>
    decreases s.len() - i,
{
    if i >= s.len() {
        out
    } else {
        blocks_result(s, i + 1, block_result(s[i], out))
    }
}

/// Whether the blocks from `i` on can be written so, within `n` bytes of output.
pub open spec fn blocks_ok(s: Seq<DBlock>, i: int, out: Seq<u8>, n: nat) -> bool
    decreases s.len() - i,
{
    i >= s.len() || (block_ok(s[i], out) && block_result(s[i], out).len() <= n && blocks_ok(
        s,
        i + 1,
        block_result(s[i], out),
        n,
    ))
}

/// A DEFLATE stream gives what its blocks say, in whichever forms they are.
pub proof fn law_deflate(c: Seq<u8>, p: int, s: Seq<DBlock>, i: int, out: Seq<u8>, n: nat)
    requires
        0 <= i < s.len(),
        blocks_stand(c, p, s, i),
        blocks_ok(s, i, out, n),
    ensures
        blocks_output(c, p, out, n) == Ok::<(Seq<u8>, int), PqErrorView>(
            (blocks_result(s, i, out), blocks_end(p, s, i)),
        ),
    decreases s.len() - i,
{
    let b = s[i];
    let last = i + 1 == s.len();
    lemma_block(c, p, b, last, out, n);
    let out2 = block_result(b, out);
    let p2 = block_end(b, p);
    if last {
        assert(blocks_result(s, i + 1, out2) == out2);
        assert(blocks_end(p2, s, i + 1) == p2);
    } else {
        law_deflate(c, p2, s, i + 1, out2, n);
    }
}

/// The optional fields of a gzip header.
pub struct MemberHead {
    pub text: bool,
    pub extra: Option<Seq<u8>>,
    pub name: Option<Seq<u8>>,
    pub comment: Option<Seq<u8>>,
    pub checksum: Option<Seq<u8>>,
    /// The time, the flags of the compressor and the system.
    pub other: Seq<u8>,
}

/// A text without zeros, and a zero.
pub open spec fn text_form(t: Option<Seq<u8>>) -> Seq<u8> {
    match t {
        None => seq![],
        Some(s) => s + seq![0u8],
    }
}

/// The flags of a header.
pub open spec fn head_flags(h: MemberHead) -> nat {
    (if h.text {
        1nat
    } else {
        0
    }) + (if h.checksum is Some {
        2nat
    } else {
        0
    }) + (if h.extra is Some {
        4nat
    } else {
        0
    }) + (if h.name is Some {
        8nat
    } else {
        0
    }) + if h.comment is Some {
        16nat
    } else {
        0
    }
}

/// The extra field of a header: its length, then its bytes.
pub open spec fn extra_form(t: Option<Seq<u8>>) -> Seq<u8> {
    match t {
        None => seq![],
        Some(s) => le_form(s.len(), 2) + s,
    }
}

/// The checksum of a header.
pub open spec fn check_form(t: Option<Seq<u8>>) -> Seq<u8> {
    match t {
        None => seq![],
        Some(s) => s,
    }
}

/// The first ten bytes of a header.
pub open spec fn fixed_head(h: MemberHead) -> Seq<u8> {
    seq![0x1fu8, 0x8b, 8, head_flags(h) as u8] + h.other
}

/// A gzip header.
pub open spec fn member_head(h: MemberHead) -> Seq<u8> {
    fixed_head(h) + (extra_form(h.extra) + (text_form(h.name) + (text_form(h.comment) + check_form(
        h.checksum,
    ))))
}

/// Whether there are no zeros.
pub open spec fn no_zeros(t: Option<Seq<u8>>) -> bool {
    t matches Some(s) ==> forall|i: int| 0 <= i < s.len() ==> #[trigger] s[i] != 0
}

/// Whether the header can be written so.
pub open spec fn member_head_ok(h: MemberHead) -> bool {
    &&& h.other.len() == 6
    &&& h.extra matches Some(s) ==> s.len() <= 0xffff
    &&& no_zeros(h.name)
    &&& no_zeros(h.comment)
    &&& h.checksum matches Some(s) ==> s.len() == 2
}

proof fn lemma_after_zero(d: Seq<u8>, p: int, s: Seq<u8>, i: int)
    requires
        0 <= p,
        0 <= i <= s.len(),
        p + s.len() < d.len(),
        forall|j: int| 0 <= j < s.len() ==> d[p + j] == s[j],
        forall|j: int| 0 <= j < s.len() ==> #[trigger] s[j] != 0,
        d[p + s.len()] == 0,
    ensures
        after_zero(d, p + i) == Some(p + s.len() + 1),
    decreases s.len() - i,
{
    if i < s.len() {
        assert(d[p + i] == s[i]);
        lemma_after_zero(d, p, s, i + 1);
    }
}

proof fn lemma_text(d: Seq<u8>, p: int, t: Option<Seq<u8>>, rest: Seq<u8>)
    requires
        0 <= p <= d.len(),
        no_zeros(t),
        d.skip(p) == text_form(t) + rest,
    ensures
        after_text(d, t is Some, p) == Ok::<int, PqErrorView>(p + text_form(t).len()),
        d.skip(p + text_form(t).len()) == rest,
        p + text_form(t).len() <= d.len(),
{
    let f = text_form(t);
    lemma_skip(d, p, f, rest);
    match t {
        None => {},
        Some(s) => {
            assert forall|j: int| 0 <= j < f.len() implies d[p + j] == f[j] by {
                assert(d.subrange(p, p + f.len())[j] == f[j]);
            }
            assert(f[s.len() as int] == 0);
            assert(d[p + s.len()] == f[s.len() as int]);
            assert forall|j: int| 0 <= j < s.len() implies d[p + j] == s[j] by {
                assert(d[p + j] == f[j]);
            }
            lemma_after_zero(d, p, s, 0);
        },
    }
}

proof fn lemma_extra(d: Seq<u8>, p: int, t: Option<Seq<u8>>, rest: Seq<u8>)
    requires
        0 <= p <= d.len(),
        3 < d.len(),
        t matches Some(s) ==> s.len() <= 0xffff,
        d.skip(p) == extra_form(t) + rest,
        (d[3] / 4) % 2 == 1 <==> t is Some,
    ensures
        after_extra(d, p) == Ok::<int, PqErrorView>(p + extra_form(t).len()),
        d.skip(p + extra_form(t).len()) == rest,
        p + extra_form(t).len() <= d.len(),
{
    let f = extra_form(t);
    lemma_skip(d, p, f, rest);
    match t {
        None => {},
        Some(s) => {
            law_le(s.len(), 2);
            lemma_pow256_values();
            assert(f.subrange(0, 2) =~= le_form(s.len(), 2));
            crate::laws::blocks::lemma_inside(d, p, f, 0, 2);
        },
    }
}

/// The content of a member starts behind its header, whatever optional fields that has.
#[verifier::rlimit(40)]
pub proof fn law_member_head(h: MemberHead, after: Seq<u8>)
    requires
        member_head_ok(h),
    ensures
        content_start(member_head(h) + after) == Ok::<int, PqErrorView>(
            member_head(h).len() as int,
        ),
{
    let d = member_head(h) + after;
    let a = fixed_head(h);
    let e = check_form(h.checksum) + after;
    let x = text_form(h.comment) + e;
    let y = text_form(h.name) + x;
    let z = extra_form(h.extra) + y;
    assert(d =~= a + z);
    assert(d.skip(10) =~= z);
    let k = head_flags(h);
    assert(k < 32);
    assert(d[0] == 0x1f && d[1] == 0x8b && d[2] == 8 && d[3] == k as u8);
    lemma_flags(h);
    lemma_extra(d, 10, h.extra, y);
    let p1 = 10 + extra_form(h.extra).len();
    lemma_text(d, p1 as int, h.name, x);
    let p2 = p1 + text_form(h.name).len();
    lemma_text(d, p2 as int, h.comment, e);
    let p3 = p2 + text_form(h.comment).len();
    lemma_skip(d, p3 as int, check_form(h.checksum), after);
}

proof fn lemma_flags(h: MemberHead)
    ensures
        ({
            let k = head_flags(h) as u8;
            &&& (k / 2) % 2 == 1 <==> h.checksum is Some
            &&& (k / 4) % 2 == 1 <==> h.extra is Some
            &&& (k / 8) % 2 == 1 <==> h.name is Some
            &&& (k / 16) % 2 == 1 <==> h.comment is Some
            &&& k < 32
        }),
{
}

/// A gzip member gives back what was written: whatever optional fields its header has, and in
/// whichever forms its blocks are. `stream` holds the blocks; behind it stand the checksum and the
/// length of what they come to.
pub proof fn law_gzip_member(h: MemberHead, s: Seq<DBlock>, stream: Seq<u8>)
    requires
        member_head_ok(h),
        s.len() > 0,
        ({
            let out = blocks_result(s, 0, seq![]);
            let tail = le_form(crc32(out) as nat, 4) + le_form(out.len(), 4);
            &&& out.len() <= GZIP_MAX_DECOMP
            &&& blocks_ok(s, 0, seq![], out.len())
            &&& blocks_stand(stream + tail, 0, s, 0)
            &&& whole(blocks_end(0, s, 0)) == stream.len()
        }),
    ensures
        ({
            let out = blocks_result(s, 0, seq![]);
            let tail = le_form(crc32(out) as nat, 4) + le_form(out.len(), 4);
            member_output(member_head(h) + (stream + tail), out.len()) == Ok::<
                Seq<u8>,
                PqErrorView,
            >(out)
        }),
{
    let out = blocks_result(s, 0, seq![]);
    let n = out.len();
    let crc = crc32(out) as nat;
    let tail = le_form(crc, 4) + le_form(n, 4);
    let c = stream + tail;
    let d = member_head(h) + c;
    law_member_head(h, c);
    assert(d.skip(member_head(h).len() as int) =~= c);
    law_deflate(c, 0, s, 0, seq![], n);
    lemma_tail(stream, crc, n);
}

proof fn lemma_tail(stream: Seq<u8>, crc: nat, n: nat)
    requires
        crc < 0x1_0000_0000,
        n < 0x1_0000_0000,
    ensures
        ({
            let c = stream + (le_form(crc, 4) + le_form(n, 4));
            let e = stream.len() as int;
            &&& c.len() == e + 8
            &&& le(c.subrange(e, e + 4)) == crc
            &&& le(c.subrange(e + 4, e + 8)) == n
        }),
{
    let c = stream + (le_form(crc, 4) + le_form(n, 4));
    let e = stream.len() as int;
    law_le(crc, 4);
    law_le(n, 4);
    lemma_pow256_values();
    assert(c.subrange(e, e + 4) =~= le_form(crc, 4));
    assert(c.subrange(e + 4, e + 8) =~= le_form(n, 4));
}

} // verus!
