//! Carries the sequences of a Zstandard block out.
use vstd::prelude::*;
use vstd::slice::slice_subrange;

use crate::lz::{copied, copy_match};
use crate::zstd::{ZstdError, ZstdErrorView};
use crate::zstd_sequences::Sequence;

verus! {

/// The last three offsets, the latest first.
#[derive(Clone, Copy, Debug, PartialEq, Eq, Structural)]
pub struct RepeatOffsets {
    pub first: u32,
    pub second: u32,
    pub third: u32,
}

/// The offsets at the start of a frame.
pub open spec fn first_offsets() -> RepeatOffsets {
    RepeatOffsets { first: 1, second: 4, third: 8 }
}

/// The offsets with a new one in front.
pub open spec fn pushed(rep: RepeatOffsets, offset: u32) -> RepeatOffsets {
    RepeatOffsets { first: offset, second: rep.first, third: rep.second }
}

/// The offset that a sequence's value stands for, and the last three offsets after it. Zero stands
/// for none.
pub open spec fn offset_of(rep: RepeatOffsets, value: u32, literal_length: u32) -> (
    u32,
    RepeatOffsets,
) {
    if value > 3 {
        ((value - 3) as u32, pushed(rep, (value - 3) as u32))
    } else if value == 0 {
        (0, rep)
    } else {
        let back = if literal_length == 0 {
            value + 1
        } else {
            value as int
        };
        if back == 1 {
            (rep.first, rep)
        } else if back == 2 {
            (
                rep.second,
                RepeatOffsets { first: rep.second, second: rep.first, third: rep.third },
            )
        } else if back == 3 {
            (rep.third, pushed(rep, rep.third))
        } else if rep.first == 0 {
            (0, rep)
        } else {
            ((rep.first - 1) as u32, pushed(rep, (rep.first - 1) as u32))
        }
    }
}

/// The sum, or the largest length if that is less.
pub open spec fn bounded_sum(a: int, b: int) -> usize {
    if a + b > usize::MAX {
        usize::MAX
    } else {
        (a + b) as usize
    }
}

/// The output after the sequences from `i` on, and the last three offsets. `at` is the literal that
/// comes next; the literals that are left follow the last sequence. The output does not grow beyond
/// `cap`.
pub open spec fn executed(
    seqs: Seq<Sequence>,
    i: int,
    literals: Seq<u8>,
    at: int,
    rep: RepeatOffsets,
    out: Seq<u8>,
    cap: usize,
) -> Result<(Seq<u8>, RepeatOffsets), ZstdErrorView>
    decreases seqs.len() - i,
{
    if i >= seqs.len() {
        let rest = literals.len() - at;
        if out.len() + rest > cap {
            Err(
                ZstdErrorView::DecompressionBomb {
                    decoded: bounded_sum(out.len() as int, rest),
                    cap,
                },
            )
        } else {
            Ok((out + literals.skip(at), rep))
        }
    } else {
        let q = seqs[i];
        let end = at + q.literal_length;
        let add = q.literal_length + q.match_length;
        let (offset, next) = offset_of(rep, q.offset, q.literal_length);
        if end > literals.len() {
            Err(ZstdErrorView::UnexpectedEof)
        } else if out.len() + add > cap {
            Err(
                ZstdErrorView::DecompressionBomb {
                    decoded: bounded_sum(out.len() as int, add),
                    cap,
                },
            )
        } else if offset == 0 || offset > out.len() + q.literal_length {
            Err(ZstdErrorView::UnexpectedEof)
        } else {
            executed(
                seqs,
                i + 1,
                literals,
                end,
                next,
                copied(
                    out + literals.subrange(at, end),
                    offset as int,
                    q.match_length as nat,
                ),
                cap,
            )
        }
    }
}

impl RepeatOffsets {
    /// The offsets at the start of a frame.
    pub fn new() -> (r: RepeatOffsets)
        ensures
            r == first_offsets(),
    {
        RepeatOffsets { first: 1, second: 4, third: 8 }
    }

    /// The offset that a sequence's value stands for; the last three offsets follow.
    pub fn resolve(&mut self, value: u32, literal_length: u32) -> (r: u32)
        ensures
            (r, *final(self)) == offset_of(*old(self), value, literal_length),
    {
        let rep = *self;
        if value > 3 {
            *self = RepeatOffsets { first: value - 3, second: rep.first, third: rep.second };
            return value - 3;
        }
        if value == 0 {
            return 0;
        }
        let back: u32 = if literal_length == 0 {
            value + 1
        } else {
            value
        };
        if back == 1 {
            return rep.first;
        }
        if back == 2 {
            *self = RepeatOffsets { first: rep.second, second: rep.first, third: rep.third };
            return rep.second;
        }
        if back == 3 {
            *self = RepeatOffsets { first: rep.third, second: rep.first, third: rep.second };
            return rep.third;
        }
        if rep.first == 0 {
            return 0;
        }
        *self = RepeatOffsets { first: rep.first - 1, second: rep.first, third: rep.second };
        rep.first - 1
    }
}

/// Appends the bytes.
pub fn append(out: &mut Vec<u8>, s: &[u8])
    ensures
        final(out)@ == old(out)@ + s@,
{
    let ghost before = out@;
    out.extend_from_slice(s);
    assert(out@ =~= before + s@);
}

/// Whether `add` more bytes keep the output within `cap`.
pub fn fits(len: usize, add: usize, cap: usize) -> (r: bool)
    ensures
        r == (len + add <= cap),
{
    len <= cap && add <= cap - len
}

/// Carries the sequences out: copies literals and parts of the output to the end of the output, and
/// tells how many bytes that were.
pub fn execute_sequences(
    seqs: &Vec<Sequence>,
    literals: &Vec<u8>,
    repeats: &mut RepeatOffsets,
    out: &mut Vec<u8>,
    cap: usize,
) -> (r: Result<usize, ZstdError>)
    ensures
        match (r, executed(seqs@, 0, literals@, 0, *old(repeats), old(out)@, cap)) {
            (Ok(n), Ok(w)) => final(out)@ == w.0 && *final(repeats) == w.1 && n == w.0.len() - old(
                out,
            )@.len() && w.0.len() <= cap,
            (Err(x), Err(y)) => x@ == y,
            _ => false,
        },
{
    let start: usize = out.len();
    let mut at: usize = 0;
    let mut i: usize = 0;
    let ghost whole = executed(seqs@, 0, literals@, 0, *repeats, out@, cap);
    while i < seqs.len()
        invariant
            i <= seqs@.len(),
            at <= literals@.len(),
            start == old(out)@.len(),
            start <= out@.len(),
            whole == executed(seqs@, 0, literals@, 0, *old(repeats), old(out)@, cap),
            whole == executed(seqs@, i as int, literals@, at as int, *repeats, out@, cap),
        decreases seqs@.len() - i,
    {
        let q = seqs[i];
        if literals.len() - at < q.literal_length as usize {
            return Err(ZstdError::UnexpectedEof);
        }
        let end: usize = at + q.literal_length as usize;
        let add: u64 = q.literal_length as u64 + q.match_length as u64;
        if add > usize::MAX as u64 || !fits(out.len(), add as usize, cap) {
            return Err(
                ZstdError::DecompressionBomb { decoded: saturated(out.len(), add), cap },
            );
        }
        let offset: u32 = repeats.resolve(q.offset, q.literal_length);
        if offset == 0 || offset as usize > out.len() + q.literal_length as usize {
            return Err(ZstdError::UnexpectedEof);
        }
        append(out, slice_subrange(literals.as_slice(), at, end));
        copy_match(out, offset as usize, q.match_length as usize);
        at = end;
        i = i + 1;
    }
    let rest: usize = literals.len() - at;
    if !fits(out.len(), rest, cap) {
        return Err(
            ZstdError::DecompressionBomb { decoded: saturated(out.len(), rest as u64), cap },
        );
    }
    let tail = slice_subrange(literals.as_slice(), at, literals.len());
    assert(tail@ =~= literals@.skip(at as int));
    append(out, tail);
    Ok(out.len() - start)
}

/// The sum, or the largest length if that is less.
pub fn saturated(a: usize, b: u64) -> (r: usize)
    ensures
        r == bounded_sum(a as int, b as int),
{
    if b > usize::MAX as u64 || b as usize > usize::MAX - a {
        usize::MAX
    } else {
        a + b as usize
    }
}

} // verus!
