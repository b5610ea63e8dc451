//! Snappy blocks in every form in which a writer may put them.
use vstd::arithmetic::div_mod::lemma_small_mod;
use vstd::prelude::*;

use crate::bytes::{lemma_pow256_values, pow256};
use crate::error::PqErrorView;
use crate::laws::blocks::{lemma_inside, lemma_skip, stepped, Step};
use crate::laws::numbers::{law_le, le_form, lemma_varint_at, varint_form};
use crate::lz::lemma_copied;
use crate::snappy;
use crate::snappy::{element_at, element_next, element_output, elements_output};

verus! {

/// A step and the number of bytes that its length, for a literal, or its offset, for a copy, takes
/// behind the tag.
pub type SizedStep = (Step, nat);

/// The output after some steps.
pub open spec fn sized_stepped(out: Seq<u8>, steps: Seq<SizedStep>) -> Seq<u8>
    decreases steps.len(),
{
    if steps.len() == 0 {
        out
    } else {
        sized_stepped(stepped(out, steps[0].0), steps.drop_first())
    }
}

/// Whether the step can be written with so many bytes behind its tag. A literal of up to 60 bytes
/// can do without; any other takes one to four bytes for its length. A copy takes one byte where it
/// is of 4 to 11 bytes from at most 2047 bytes back, and else two or four.
pub open spec fn sized_step_ok(out: Seq<u8>, s: SizedStep) -> bool {
    let (step, w) = s;
    match step {
        Step::Literal(b) => 1 <= b.len() && if w == 0 {
            b.len() <= 60
        } else {
            w <= 4 && b.len() <= pow256(w)
        },
        Step::Copy { offset, len } => 1 <= offset <= out.len() && copy_fits(offset, len, w),
    }
}

/// Whether so many bytes, and the bits of the tag, hold a copy's offset and length.
pub open spec fn copy_fits(offset: nat, len: nat, w: nat) -> bool {
    if w == 1 {
        4 <= len <= 11 && offset < 2048
    } else {
        (w == 2 || w == 4) && 1 <= len <= 64 && offset < pow256(w)
    }
}

/// Whether the steps can be written in their sizes.
pub open spec fn sized_steps_ok(out: Seq<u8>, steps: Seq<SizedStep>) -> bool
    decreases steps.len(),
{
    steps.len() == 0 || (sized_step_ok(out, steps[0]) && sized_steps_ok(
        stepped(out, steps[0].0),
        steps.drop_first(),
    ))
}

/// A step in its size.
pub open spec fn sized_step_form(s: SizedStep) -> Seq<u8> {
    let (step, w) = s;
    match step {
        Step::Literal(b) => if w == 0 {
            seq![(4 * (b.len() - 1)) as u8] + b
        } else {
            seq![(4 * (59 + w)) as u8] + le_form((b.len() - 1) as nat, w) + b
        },
        Step::Copy { offset, len } => if w == 1 {
            seq![(1 + 4 * (len - 4) + 32 * (offset / 256)) as u8, (offset % 256) as u8]
        } else {
            seq![
                (4 * (len - 1) + if w == 2 {
                    2int
                } else {
                    3
                }) as u8,
            ] + le_form(offset, w)
        },
    }
}

/// Steps in their sizes.
pub open spec fn sized_steps_form(steps: Seq<SizedStep>) -> Seq<u8>
    decreases steps.len(),
{
    if steps.len() == 0 {
        seq![]
    } else {
        sized_step_form(steps[0]) + sized_steps_form(steps.drop_first())
    }
}

/// What stands at a position, from its first byte on.
proof fn lemma_first(d: Seq<u8>, p: int, f: Seq<u8>, rest: Seq<u8>, i: int)
    requires
        0 <= p <= d.len(),
        d.skip(p) == f + rest,
        0 <= i < f.len(),
    ensures
        d[p + i] == f[i],
        d.len() == p + f.len() + rest.len(),
{
    lemma_skip(d, p, f, rest);
    assert(d.subrange(p, p + f.len())[i] == f[i]);
}

proof fn lemma_literal(d: Seq<u8>, p: int, b: Seq<u8>, w: nat, rest: Seq<u8>)
    requires
        0 <= p <= d.len() <= usize::MAX,
        d.skip(p) == sized_step_form((Step::Literal(b), w)) + rest,
        sized_step_ok(seq![], (Step::Literal(b), w)),
    ensures
        p < d.len(),
        element_at(d, p) == Ok::<snappy::Element, PqErrorView>(
            snappy::Element::Literal {
                start: p + 1 + w,
                len: b.len() as int,
                next: p + 1 + w + b.len(),
            },
        ),
        d.subrange(p + 1 + w, p + 1 + w + b.len()) == b,
        sized_step_form((Step::Literal(b), w)).len() == 1 + w + b.len(),
{
    let f = sized_step_form((Step::Literal(b), w));
    lemma_pow256_values();
    lemma_skip(d, p, f, rest);
    if w == 0 {
        lemma_first(d, p, f, rest, 0);
        assert(f.subrange(1, f.len() as int) =~= b);
        lemma_inside(d, p, f, 1, f.len() as int);
    } else {
        let n = (b.len() - 1) as nat;
        let tag = (4 * (59 + w)) as u8;
        let l = le_form(n, w);
        law_le(n, w);
        lemma_small_mod(n, pow256(w));
        assert(l.len() == w);
        assert(f =~= seq![tag] + l + b);
        lemma_first(d, p, f, rest, 0);
        assert(w == 1 || w == 2 || w == 3 || w == 4);
        assert(d[p] == tag);
        assert(tag % 4 == 0 && tag / 4 == 59 + w);
        assert(f.subrange(1, 1 + w as int) =~= l);
        assert(f.subrange(1 + w as int, f.len() as int) =~= b);
        lemma_inside(d, p, f, 1, 1 + w as int);
        lemma_inside(d, p, f, 1 + w as int, f.len() as int);
        assert(crate::bytes::le(d.subrange(p + 1, p + 1 + w)) == n);
    }
}

proof fn lemma_copy(d: Seq<u8>, p: int, offset: nat, len: nat, w: nat, rest: Seq<u8>)
    requires
        0 <= p <= d.len() <= usize::MAX,
        d.skip(p) == sized_step_form((Step::Copy { offset, len }, w)) + rest,
        copy_fits(offset, len, w),
    ensures
        p < d.len(),
        element_at(d, p) == Ok::<snappy::Element, PqErrorView>(
            snappy::Element::Copy { offset: offset as int, len: len as int, next: p + 1 + w },
        ),
        sized_step_form((Step::Copy { offset, len }, w)).len() == 1 + w,
{
    let f = sized_step_form((Step::Copy { offset, len }, w));
    lemma_pow256_values();
    lemma_skip(d, p, f, rest);
    if w == 1 {
        lemma_first(d, p, f, rest, 0);
        lemma_first(d, p, f, rest, 1);
        let high = (offset / 256) as int;
        let tag = 1 + 4 * (len - 4) + 32 * high;
        assert(0 <= high < 8);
        assert(0 <= tag < 256);
        assert(tag % 4 == 1 && tag / 32 == high && (tag / 4) % 8 == len - 4);
        assert(offset == 256 * high + offset % 256);
    } else {
        law_le(offset, w);
        lemma_small_mod(offset, pow256(w));
        lemma_first(d, p, f, rest, 0);
        assert(f.subrange(1, 1 + w as int) =~= le_form(offset, w));
        lemma_inside(d, p, f, 1, 1 + w as int);
    }
}

proof fn lemma_sized_step(d: Seq<u8>, p: int, s: SizedStep, rest: Seq<u8>, out: Seq<u8>, n: nat)
    requires
        0 <= p <= d.len() <= usize::MAX,
        d.skip(p) == sized_step_form(s) + rest,
        sized_step_ok(out, s),
        stepped(out, s.0).len() <= n,
    ensures
        p < d.len(),
        element_at(d, p) is Ok,
        element_output(d, element_at(d, p)->Ok_0, out, n) == Ok::<Seq<u8>, PqErrorView>(
            stepped(out, s.0),
        ),
        element_next(element_at(d, p)->Ok_0) == p + sized_step_form(s).len(),
{
    match s.0 {
        Step::Literal(b) => lemma_literal(d, p, b, s.1, rest),
        Step::Copy { offset, len } => {
            lemma_copied(out, offset as int, len);
            lemma_copy(d, p, offset, len, s.1, rest);
        },
    }
}

proof fn lemma_sized_grows(out: Seq<u8>, steps: Seq<SizedStep>)
    requires
        sized_steps_ok(out, steps),
    ensures
        out.len() <= sized_stepped(out, steps).len(),
    decreases steps.len(),
{
    if steps.len() > 0 {
        lemma_sized_grows(stepped(out, steps[0].0), steps.drop_first());
        match steps[0].0 {
            Step::Literal(b) => {},
            Step::Copy { offset, len } => {
                lemma_copied(out, offset as int, len);
            },
        }
    }
}

proof fn lemma_sized_steps(d: Seq<u8>, p: int, steps: Seq<SizedStep>, out: Seq<u8>, n: nat)
    requires
        0 <= p <= d.len() <= usize::MAX,
        d.skip(p) == sized_steps_form(steps),
        sized_steps_ok(out, steps),
        sized_stepped(out, steps).len() == n,
    ensures
        elements_output(d, p, out, n) == Ok::<Seq<u8>, PqErrorView>(sized_stepped(out, steps)),
    decreases steps.len(),
{
    if steps.len() == 0 {
        assert(d.skip(p).len() == 0);
    } else {
        let s = steps[0];
        let rest = steps.drop_first();
        lemma_sized_grows(stepped(out, s.0), rest);
        lemma_sized_step(d, p, s, sized_steps_form(rest), out, n);
        lemma_skip(d, p, sized_step_form(s), sized_steps_form(rest));
        lemma_sized_steps(d, p + sized_step_form(s).len(), rest, stepped(out, s.0), n);
    }
}

/// A Snappy block decompresses to what its steps say, in whichever of the forms that hold it each
/// step is written.
pub proof fn law_snappy_forms(steps: Seq<SizedStep>)
    requires
        sized_steps_ok(seq![], steps),
        sized_stepped(seq![], steps).len() <= 0x1000_0000,
        (varint_form(sized_stepped(seq![], steps).len()) + sized_steps_form(steps)).len()
            <= usize::MAX,
    ensures
        snappy::block_output(
            varint_form(sized_stepped(seq![], steps).len()) + sized_steps_form(steps),
            sized_stepped(seq![], steps).len(),
        ) == Ok::<Seq<u8>, PqErrorView>(sized_stepped(seq![], steps)),
{
    let n = sized_stepped(seq![], steps).len();
    let h = varint_form(n);
    let d = h + sized_steps_form(steps);
    crate::varint::lemma_pow128_values();
    lemma_varint_at(n as u64, seq![], sized_steps_form(steps), 5);
    assert(Seq::<u8>::empty() + h + sized_steps_form(steps) =~= d);
    assert(d.skip(h.len() as int) =~= sized_steps_form(steps));
    lemma_sized_steps(d, h.len() as int, steps, seq![], n);
}

/// A copy in any of its forms that reaches back behind the start of the output, or to no byte at all,
/// is refused.
pub proof fn law_snappy_offset(
    d: Seq<u8>,
    p: int,
    offset: nat,
    len: nat,
    w: nat,
    rest: Seq<u8>,
    out: Seq<u8>,
    n: nat,
)
    requires
        0 <= p <= d.len() <= usize::MAX,
        d.skip(p) == sized_step_form((Step::Copy { offset, len }, w)) + rest,
        copy_fits(offset, len, w),
        offset == 0 || out.len() < offset,
    ensures
        elements_output(d, p, out, n) is Err,
{
    lemma_copy(d, p, offset, len, w, rest);
}

} // verus!
