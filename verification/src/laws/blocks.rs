//! Snappy and LZ4 blocks: literals, and copies of what came before.
use vstd::prelude::*;

use crate::error::PqErrorView;
use crate::laws::numbers::{law_le, le_form, lemma_varint_at, varint_form};
use crate::lz::{copied, lemma_copied};
use crate::lz4;
use crate::snappy;
use crate::snappy::{element_at, element_next, element_output, elements_output};

verus! {

/// A copy of `n` bytes that starts `offset` bytes back repeats those bytes, over and over where
/// `n` is more than there are.
pub proof fn law_copied(out: Seq<u8>, offset: int, n: nat, i: int)
    requires
        1 <= offset <= out.len(),
        0 <= i < n,
    ensures
        copied(out, offset, n).len() == out.len() + n,
        copied(out, offset, n).take(out.len() as int) == out,
        copied(out, offset, n)[out.len() + i] == out[out.len() - offset + i % offset],
    decreases n,
{
    lemma_copied(out, offset, n);
    let m = (n - 1) as nat;
    lemma_copied(out, offset, m);
    let before = copied(out, offset, m);
    assert(copied(out, offset, n).take(out.len() as int) =~= out);
    if i < m {
        law_copied(out, offset, m, i);
    } else {
        assert(i == m);
        let at = before.len() - offset;
        if i < offset {
            assert(before[at] == before.take(out.len() as int)[at]);
            assert(i % offset == i) by {
                vstd::arithmetic::div_mod::lemma_small_mod(i as nat, offset as nat);
            }
            assert(before.take(out.len() as int) =~= out);
        } else {
            law_copied(out, offset, m, i - offset);
            assert((i - offset) % offset == i % offset) by {
                vstd::arithmetic::div_mod::lemma_mod_sub_multiples_vanish(i, offset);
            }
        }
    }
}

/// A step of a block.
pub enum Step {
    /// Bytes as they are.
    Literal(Seq<u8>),
    /// Bytes that stand so far back.
    Copy { offset: nat, len: nat },
}

/// The output after a step.
pub open spec fn stepped(out: Seq<u8>, s: Step) -> Seq<u8> {
    match s {
        Step::Literal(b) => out + b,
        Step::Copy { offset, len } => copied(out, offset as int, len),
    }
}

/// The output after some steps.
pub open spec fn all_stepped(out: Seq<u8>, steps: Seq<Step>) -> Seq<u8>
    decreases steps.len(),
{
    if steps.len() == 0 {
        out
    } else {
        all_stepped(stepped(out, steps[0]), steps.drop_first())
    }
}

/// Whether a Snappy block can hold the step: a literal is not empty, and a copy is of at most 64
/// bytes that are there.
pub open spec fn snappy_step_ok(out: Seq<u8>, s: Step) -> bool {
    match s {
        Step::Literal(b) => 1 <= b.len() <= 0xFFFF_FFFF,
        Step::Copy { offset, len } => 1 <= offset <= out.len() && offset <= u32::MAX && 1 <= len
            <= 64,
    }
}

/// Whether a Snappy block can hold the steps.
pub open spec fn snappy_steps_ok(out: Seq<u8>, steps: Seq<Step>) -> bool
    decreases steps.len(),
{
    steps.len() == 0 || (snappy_step_ok(out, steps[0]) && snappy_steps_ok(
        stepped(out, steps[0]),
        steps.drop_first(),
    ))
}

/// A step in a Snappy block.
pub open spec fn snappy_step_form(s: Step) -> Seq<u8> {
    match s {
        Step::Literal(b) => if b.len() <= 60 {
            seq![((b.len() - 1) * 4) as u8] + b
        } else {
            seq![252u8] + le_form((b.len() - 1) as nat, 4) + b
        },
        Step::Copy { offset, len } => seq![((len - 1) * 4 + 3) as u8] + le_form(offset, 4),
    }
}

/// Steps in a Snappy block.
pub open spec fn snappy_steps_form(steps: Seq<Step>) -> Seq<u8>
    decreases steps.len(),
{
    if steps.len() == 0 {
        seq![]
    } else {
        snappy_step_form(steps[0]) + snappy_steps_form(steps.drop_first())
    }
}

/// What stands at a position, taken apart.
pub proof fn lemma_skip(d: Seq<u8>, p: int, a: Seq<u8>, b: Seq<u8>)
    requires
        0 <= p <= d.len(),
        d.skip(p) == a + b,
    ensures
        d.len() == p + a.len() + b.len(),
        d.subrange(p, p + a.len()) == a,
        d.skip(p + a.len()) == b,
{
    assert(d.skip(p).len() == a.len() + b.len());
    assert forall|i: int| 0 <= i < a.len() implies d[p + i] == a[i] by {
        assert(d[p + i] == d.skip(p)[i]);
    }
    assert forall|i: int| 0 <= i < b.len() implies d[p + a.len() + i] == b[i] by {
        assert(d[p + a.len() + i] == d.skip(p)[a.len() + i]);
    }
    assert(d.subrange(p, p + a.len()) =~= a);
    assert(d.skip(p + a.len()) =~= b);
}

/// A part of a part.
pub proof fn lemma_inside(d: Seq<u8>, p: int, f: Seq<u8>, a: int, b: int)
    requires
        0 <= p,
        p + f.len() <= d.len(),
        d.subrange(p, p + f.len()) == f,
        0 <= a <= b <= f.len(),
    ensures
        d.subrange(p + a, p + b) == f.subrange(a, b),
{
    assert(d.subrange(p + a, p + b) =~= d.subrange(p, p + f.len()).subrange(a, b));
}

proof fn lemma_snappy_step(d: Seq<u8>, p: int, s: Step, rest: Seq<u8>, out: Seq<u8>, n: nat)
    requires
        0 <= p <= d.len() <= usize::MAX,
        d.skip(p) == snappy_step_form(s) + rest,
        snappy_step_ok(out, s),
        stepped(out, s).len() <= n,
    ensures
        p < d.len(),
        element_at(d, p) is Ok,
        element_output(d, element_at(d, p)->Ok_0, out, n) == Ok::<Seq<u8>, PqErrorView>(
            stepped(out, s),
        ),
        element_next(element_at(d, p)->Ok_0) == p + snappy_step_form(s).len(),
{
    let f = snappy_step_form(s);
    lemma_skip(d, p, f, rest);
    crate::bytes::lemma_pow256_values();
    assert(f.len() > 0);
    assert(d[p] == f[0]) by {
        assert(d.subrange(p, p + f.len())[0] == f[0]);
    }
    match s {
        Step::Literal(b) => {
            if b.len() <= 60 {
                assert(f.subrange(1, f.len() as int) =~= b);
                lemma_inside(d, p, f, 1, f.len() as int);
            } else {
                let l = le_form((b.len() - 1) as nat, 4);
                law_le((b.len() - 1) as nat, 4);
                assert(f.subrange(1, 5) =~= l);
                assert(f.subrange(5, f.len() as int) =~= b);
                lemma_inside(d, p, f, 1, 5);
                lemma_inside(d, p, f, 5, f.len() as int);
            }
        },
        Step::Copy { offset, len } => {
            let l = le_form(offset, 4);
            law_le(offset, 4);
            assert(f.subrange(1, 5) =~= l);
            lemma_inside(d, p, f, 1, 5);
            lemma_copied(out, offset as int, len);
        },
    }
}

proof fn lemma_step_grows(out: Seq<u8>, steps: Seq<Step>)
    requires
        snappy_steps_ok(out, steps),
    ensures
        out.len() <= all_stepped(out, steps).len(),
    decreases steps.len(),
{
    if steps.len() > 0 {
        lemma_step_grows(stepped(out, steps[0]), steps.drop_first());
        match steps[0] {
            Step::Literal(b) => {},
            Step::Copy { offset, len } => {
                lemma_copied(out, offset as int, len);
            },
        }
    }
}

proof fn lemma_snappy_steps(d: Seq<u8>, p: int, steps: Seq<Step>, out: Seq<u8>, n: nat)
    requires
        0 <= p <= d.len() <= usize::MAX,
        d.skip(p) == snappy_steps_form(steps),
        snappy_steps_ok(out, steps),
        all_stepped(out, steps).len() == n,
    ensures
        elements_output(d, p, out, n) == Ok::<Seq<u8>, PqErrorView>(all_stepped(out, steps)),
    decreases steps.len(),
{
    if steps.len() == 0 {
        assert(d.skip(p).len() == 0);
    } else {
        let s = steps[0];
        let rest = steps.drop_first();
        lemma_step_grows(stepped(out, s), rest);
        lemma_snappy_step(d, p, s, snappy_steps_form(rest), out, n);
        lemma_skip(d, p, snappy_step_form(s), snappy_steps_form(rest));
        lemma_snappy_steps(d, p + snappy_step_form(s).len(), rest, stepped(out, s), n);
    }
}

/// A Snappy block decompresses to what its steps say.
pub proof fn law_snappy(steps: Seq<Step>)
    requires
        snappy_steps_ok(seq![], steps),
        all_stepped(seq![], steps).len() <= snappy::SNAPPY_MAX_DECOMP,
        (varint_form(all_stepped(seq![], steps).len()) + snappy_steps_form(steps)).len()
            <= usize::MAX,
    ensures
        snappy::block_output(
            varint_form(all_stepped(seq![], steps).len()) + snappy_steps_form(steps),
            all_stepped(seq![], steps).len(),
        ) == Ok::<Seq<u8>, PqErrorView>(all_stepped(seq![], steps)),
{
    let n = all_stepped(seq![], steps).len();
    let h = varint_form(n);
    let d = h + snappy_steps_form(steps);
    crate::varint::lemma_pow128_values();
    lemma_varint_at(n as u64, seq![], snappy_steps_form(steps), 5);
    assert(Seq::<u8>::empty() + h + snappy_steps_form(steps) =~= d);
    assert(d.skip(h.len() as int) =~= snappy_steps_form(steps));
    lemma_snappy_steps(d, h.len() as int, steps, seq![], n);
}

/// Whatever a Snappy block decompresses to is of the length asked for, and within the cap.
pub proof fn law_snappy_len(s: Seq<u8>, n: nat)
    ensures
        snappy::block_output(s, n) matches Ok(v) ==> v.len() == n && n
            <= snappy::SNAPPY_MAX_DECOMP,
{
    if snappy::block_output(s, n) is Ok {
        match crate::varint::varint_at(s, 0, 5) {
            crate::varint::VarintView::Value { value, end } => {
                lemma_elements_len(s, end, seq![], n);
            },
            _ => {},
        }
    }
}

proof fn lemma_elements_len(s: Seq<u8>, p: int, out: Seq<u8>, n: nat)
    ensures
        elements_output(s, p, out, n) matches Ok(v) ==> v.len() == n,
    decreases s.len() - p,
{
    if p < s.len() {
        match element_at(s, p) {
            Ok(e) => match element_output(s, e, out, n) {
                Ok(o) => lemma_elements_len(s, element_next(e), o, n),
                _ => {},
            },
            _ => {},
        }
    }
}

/// A sequence of an LZ4 block: literals, then a copy.
pub struct Lz4Step {
    pub literals: Seq<u8>,
    pub offset: nat,
    pub len: nat,
}

/// The output after an LZ4 sequence.
pub open spec fn lz4_stepped(out: Seq<u8>, s: Lz4Step) -> Seq<u8> {
    copied(out + s.literals, s.offset as int, s.len)
}

/// The output after LZ4 sequences and the last literals.
pub open spec fn lz4_all_stepped(out: Seq<u8>, steps: Seq<Lz4Step>, last: Seq<u8>) -> Seq<u8>
    decreases steps.len(),
{
    if steps.len() == 0 {
        out + last
    } else {
        lz4_all_stepped(lz4_stepped(out, steps[0]), steps.drop_first(), last)
    }
}

/// Whether an LZ4 block can hold the sequences: each copy is of at least four bytes that are there.
pub open spec fn lz4_steps_ok(out: Seq<u8>, steps: Seq<Lz4Step>) -> bool
    decreases steps.len(),
{
    steps.len() == 0 || (1 <= steps[0].offset <= u16::MAX && steps[0].offset <= out.len()
        + steps[0].literals.len() && steps[0].len >= 4 && lz4_steps_ok(
        lz4_stepped(out, steps[0]),
        steps.drop_first(),
    ))
}

/// What is left of a length behind the four bits of its token.
pub open spec fn extension_form(n: nat) -> Seq<u8>
    decreases n,
{
    if n < 255 {
        seq![n as u8]
    } else {
        seq![255u8] + extension_form((n - 255) as nat)
    }
}

/// The four bits of a length.
pub open spec fn nibble(n: nat) -> nat {
    if n < 15 {
        n
    } else {
        15
    }
}

/// The bytes of a length that do not fit its four bits.
pub open spec fn rest_form(n: nat) -> Seq<u8> {
    if n < 15 {
        seq![]
    } else {
        extension_form((n - 15) as nat)
    }
}

/// The token of a sequence.
pub open spec fn token(literals: nat, len: nat) -> u8 {
    (nibble(literals) * 16 + nibble(len)) as u8
}

/// A sequence in an LZ4 block.
pub open spec fn lz4_step_form(s: Lz4Step) -> Seq<u8> {
    seq![token(s.literals.len(), (s.len - 4) as nat)] + rest_form(s.literals.len()) + s.literals
        + le_form(s.offset, 2) + rest_form((s.len - 4) as nat)
}

/// Sequences and the last literals in an LZ4 block.
pub open spec fn lz4_form(steps: Seq<Lz4Step>, last: Seq<u8>) -> Seq<u8>
    decreases steps.len(),
{
    if steps.len() == 0 {
        seq![token(last.len(), 0)] + rest_form(last.len()) + last
    } else {
        lz4_step_form(steps[0]) + lz4_form(steps.drop_first(), last)
    }
}

proof fn lemma_extension(
    d: Seq<u8>,
    p: int,
    n: nat,
    acc: int,
    rest: Seq<u8>,
    truncated: Seq<char>,
    overflow: Seq<char>,
)
    requires
        0 <= p <= d.len(),
        0 <= acc,
        d.skip(p) == extension_form(n) + rest,
        acc + n <= usize::MAX,
    ensures
        lz4::length_at(d, p, acc, truncated, overflow) == Ok::<(int, int), PqErrorView>(
            (acc + n, p + extension_form(n).len()),
        ),
    decreases n,
{
    let f = extension_form(n);
    lemma_skip(d, p, f, rest);
    assert(f.len() > 0);
    assert(d[p] == d.skip(p)[0]);
    assert((f + rest)[0] == f[0]);
    if n >= 255 {
        let g = extension_form((n - 255) as nat);
        assert(f =~= seq![255u8] + g);
        assert(f + rest =~= seq![255u8] + (g + rest));
        lemma_skip(d, p, seq![255u8], g + rest);
        lemma_extension(d, p + 1, (n - 255) as nat, acc + 255, rest, truncated, overflow);
    }
}

proof fn lemma_literals(d: Seq<u8>, p: int, b: Seq<u8>, low: nat, rest: Seq<u8>)
    requires
        0 <= p <= d.len() <= usize::MAX,
        low < 16,
        d.skip(p) == seq![(nibble(b.len()) * 16 + low) as u8] + rest_form(b.len()) + b + rest,
    ensures
        ({
            let start = p + 1 + rest_form(b.len()).len();
            &&& p < d.len()
            &&& d[p] == (nibble(b.len()) * 16 + low) as u8
            &&& lz4::literals_at(d, p) == Ok::<(int, int), PqErrorView>(
                (start, (start + b.len()) as int),
            )
            &&& d.subrange(start, (start + b.len()) as int) == b
            &&& d.skip((start + b.len()) as int) == rest
            &&& start + b.len() + rest.len() == d.len()
        }),
{
    let t = (nibble(b.len()) * 16 + low) as u8;
    let x = rest_form(b.len());
    assert(seq![t] + x + b + rest =~= seq![t] + (x + (b + rest)));
    lemma_skip(d, p, seq![t], x + (b + rest));
    assert(d[p] == d.subrange(p, p + 1)[0]);
    lemma_skip(d, p + 1, x, b + rest);
    lemma_skip(d, p + 1 + x.len(), b, rest);
    if b.len() >= 15 {
        lemma_extension(
            d,
            p + 1,
            (b.len() - 15) as nat,
            15,
            b + rest,
            "lz4: truncated lit-len extra"@,
            "lz4: lit-len overflow"@,
        );
    }
}

proof fn lemma_match(d: Seq<u8>, p: int, t: u8, offset: nat, len: nat, have: int, rest: Seq<u8>)
    requires
        0 <= p <= d.len() <= usize::MAX,
        4 <= len <= usize::MAX,
        1 <= offset <= u16::MAX,
        offset <= have,
        t % 16 == nibble((len - 4) as nat),
        d.skip(p) == le_form(offset, 2) + rest_form((len - 4) as nat) + rest,
    ensures
        lz4::match_at(d, p, t, have) == Ok::<(int, int, int), PqErrorView>(
            (offset as int, len as int, p + 2 + rest_form((len - 4) as nat).len()),
        ),
        d.skip(p + 2 + rest_form((len - 4) as nat).len()) == rest,
        p + 2 + rest_form((len - 4) as nat).len() + rest.len() == d.len(),
{
    let l = le_form(offset, 2);
    let m = (len - 4) as nat;
    let x = rest_form(m);
    law_le(offset, 2);
    crate::bytes::lemma_pow256_values();
    assert(l + x + rest =~= l + (x + rest));
    lemma_skip(d, p, l, x + rest);
    lemma_skip(d, p + 2, x, rest);
    if m >= 15 {
        lemma_extension(
            d,
            p + 2,
            (m - 15) as nat,
            19,
            rest,
            "lz4: truncated match-len extra"@,
            "lz4: match-len overflow"@,
        );
    }
}

proof fn lemma_lz4_grows(out: Seq<u8>, steps: Seq<Lz4Step>, last: Seq<u8>)
    requires
        lz4_steps_ok(out, steps),
    ensures
        out.len() <= lz4_all_stepped(out, steps, last).len(),
        steps.len() > 0 ==> out.len() + steps[0].literals.len() + steps[0].len
            <= lz4_all_stepped(out, steps, last).len(),
    decreases steps.len(),
{
    if steps.len() > 0 {
        let s = steps[0];
        lemma_copied(out + s.literals, s.offset as int, s.len);
        lemma_lz4_grows(lz4_stepped(out, s), steps.drop_first(), last);
    }
}

proof fn lemma_lz4_steps(
    d: Seq<u8>,
    p: int,
    steps: Seq<Lz4Step>,
    last: Seq<u8>,
    out: Seq<u8>,
    n: nat,
)
    requires
        0 <= p <= d.len() <= usize::MAX,
        n <= usize::MAX,
        d.skip(p) == lz4_form(steps, last),
        lz4_steps_ok(out, steps),
        lz4_all_stepped(out, steps, last).len() == n,
    ensures
        lz4::sequences_output(d, p, out, n) == Ok::<Seq<u8>, PqErrorView>(
            lz4_all_stepped(out, steps, last),
        ),
    decreases steps.len(),
{
    if steps.len() == 0 {
        assert(lz4_form(steps, last) =~= lz4_form(steps, last) + seq![]);
        lemma_literals(d, p, last, 0, seq![]);
    } else {
        let s = steps[0];
        let tail = steps.drop_first();
        let m = (s.len - 4) as nat;
        let rest = lz4_form(tail, last);
        let after = le_form(s.offset, 2) + rest_form(m) + rest;
        assert(lz4_form(steps, last) =~= seq![token(s.literals.len(), m)] + rest_form(
            s.literals.len(),
        ) + s.literals + after);
        lemma_literals(d, p, s.literals, nibble(m), after);
        lemma_lz4_grows(out, steps, last);
        let end = p + 1 + rest_form(s.literals.len()).len() + s.literals.len();
        let out2 = out + s.literals;
        law_le(s.offset, 2);
        lemma_match(d, end, d[p], s.offset, s.len, out2.len() as int, rest);
        lemma_lz4_steps(
            d,
            end + 2 + rest_form(m).len(),
            tail,
            last,
            lz4_stepped(out, s),
            n,
        );
    }
}

/// An LZ4 block decompresses to what its sequences say.
pub proof fn law_lz4(steps: Seq<Lz4Step>, last: Seq<u8>)
    requires
        lz4_steps_ok(seq![], steps),
        lz4_all_stepped(seq![], steps, last).len() <= usize::MAX,
        lz4_form(steps, last).len() <= usize::MAX,
    ensures
        lz4::block_output(
            lz4_form(steps, last),
            lz4_all_stepped(seq![], steps, last).len(),
        ) == Ok::<Seq<u8>, PqErrorView>(lz4_all_stepped(seq![], steps, last)),
{
    let d = lz4_form(steps, last);
    assert(d.skip(0) =~= d);
    lemma_lz4_steps(d, 0, steps, last, seq![], lz4_all_stepped(seq![], steps, last).len());
}

} // verus!
