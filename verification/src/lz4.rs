//! Raw LZ4 blocks.
//!
//! A block is a list of sequences. A sequence is a token byte, whose high and low four bits give
//! the lengths of its literals and of its match, then the literals, then a two-byte offset and the
//! rest of the match length. A length nibble of 15 goes on in bytes that are added up to the first
//! that is not 255. The last sequence ends with its literals.
use vstd::prelude::*;
use vstd::slice::slice_subrange;
use vstd::string::*;

use crate::bytes::{le, le_u16};
use crate::error::{bad, decimal, decimal_text, PqError, PqErrorView};
use crate::lz::{copied, copy_match};
use crate::snappy::yields;

verus! {

/// A length that starts at `acc` and goes on in the bytes from position `p`, and the position
/// behind them.
pub open spec fn length_at(
    s: Seq<u8>,
    p: int,
    acc: int,
    truncated: Seq<char>,
    overflow: Seq<char>,
) -> Result<(int, int), PqErrorView>
    decreases s.len() - p,
{
    if p >= s.len() {
        Err(PqErrorView::Bad(truncated))
    } else if acc + s[p] > usize::MAX {
        Err(PqErrorView::Bad(overflow))
    } else if s[p] == 255 {
        length_at(s, p + 1, acc + 255, truncated, overflow)
    } else {
        Ok((acc + s[p], p + 1))
    }
}

/// The literals of the sequence whose token stands at position `p`: where they start and end.
pub open spec fn literals_at(s: Seq<u8>, p: int) -> Result<(int, int), PqErrorView> {
    let nibble = (s[p] / 16) as int;
    let length = if nibble == 15 {
        length_at(s, p + 1, 15, "lz4: truncated lit-len extra"@, "lz4: lit-len overflow"@)
    } else {
        Ok((nibble, p + 1))
    };
    match length {
        Err(x) => Err(x),
        Ok((n, start)) => if start + n > usize::MAX {
            Err(PqErrorView::Bad("lz4: lit overrun overflow"@))
        } else if start + n > s.len() {
            Err(
                PqErrorView::Bad(
                    "lz4: literal section overruns src (need "@ + decimal(start + n) + " <= "@
                        + decimal(s.len() as int) + ")"@,
                ),
            )
        } else {
            Ok((start, start + n))
        },
    }
}

/// The match that follows at position `p` behind the literals of a sequence with token `token`: its
/// offset, its length and the position behind it. `have` is the length of the output so far.
pub open spec fn match_at(s: Seq<u8>, p: int, token: u8, have: int) -> Result<
    (int, int, int),
    PqErrorView,
> {
    if p + 2 > s.len() {
        Err(PqErrorView::Bad("lz4: truncated offset"@))
    } else {
        let offset = le(s.subrange(p, p + 2)) as int;
        if offset == 0 {
            Err(PqErrorView::Bad("lz4: zero offset (invalid per spec)"@))
        } else if offset > have {
            Err(
                PqErrorView::Bad(
                    "lz4: offset "@ + decimal(offset) + " > out length "@ + decimal(have),
                ),
            )
        } else {
            let length = if token % 16 == 15 {
                length_at(
                    s,
                    p + 2,
                    19,
                    "lz4: truncated match-len extra"@,
                    "lz4: match-len overflow"@,
                )
            } else {
                Ok((token % 16 + 4, p + 2))
            };
            match length {
                Err(x) => Err(x),
                Ok((n, next)) => Ok((offset, n, next)),
            }
        }
    }
}

/// The output, if it has come to `n` bytes.
pub open spec fn finished(out: Seq<u8>, n: nat) -> Result<Seq<u8>, PqErrorView> {
    if out.len() == n {
        Ok(out)
    } else {
        Err(
            PqErrorView::Bad(
                "lz4: decoded "@ + decimal(out.len() as int) + " bytes, expected "@ + decimal(
                    n as int,
                ),
            ),
        )
    }
}

/// The output of the sequences from position `p` on, behind the output `out` so far; the whole must
/// come to `n` bytes.
pub open spec fn sequences_output(s: Seq<u8>, p: int, out: Seq<u8>, n: nat) -> Result<
    Seq<u8>,
    PqErrorView,
>
    decreases s.len() - p,
{
    if p >= s.len() {
        finished(out, n)
    } else {
        match literals_at(s, p) {
            Err(x) => Err(x),
            Ok((start, end)) => if out.len() + (end - start) > n {
                Err(PqErrorView::Bad("lz4: literals exceed declared uncompressed size"@))
            } else {
                let out2 = out + s.subrange(start, end);
                if end == s.len() {
                    finished(out2, n)
                } else {
                    match match_at(s, end, s[p], out2.len() as int) {
                        Err(x) => Err(x),
                        Ok((offset, len, next)) => if out2.len() + len > n {
                            Err(
                                PqErrorView::Bad(
                                    "lz4: match exceeds declared uncompressed size"@,
                                ),
                            )
                        } else if p < next <= s.len() {
                            sequences_output(s, next, copied(out2, offset, len as nat), n)
                        } else {
                            Ok(out2)
                        },
                    }
                }
            },
        }
    }
}

/// What the block `s` decompresses to, where the output is to be of `n` bytes.
pub open spec fn block_output(s: Seq<u8>, n: nat) -> Result<Seq<u8>, PqErrorView> {
    sequences_output(s, 0, Seq::empty(), n)
}

/// Whether reading gave a length and the position behind it.
pub open spec fn length_read(r: Result<(usize, usize), PqError>, s: Result<(int, int), PqErrorView>) -> bool {
    match (r, s) {
        (Ok(v), Ok(w)) => v.0 == w.0 && v.1 == w.1,
        (Err(x), Err(y)) => x@ == y,
        _ => false,
    }
}

fn read_length(src: &[u8], p: usize, start: usize, truncated: &str, overflow: &str) -> (r: Result<
    (usize, usize),
    PqError,
>)
    requires
        p <= src@.len(),
    ensures
        length_read(r, length_at(src@, p as int, start as int, truncated@, overflow@)),
        r matches Ok(v) ==> p < v.1 <= src@.len() && v.0 >= start,
{
    let mut i: usize = p;
    let mut acc: usize = start;
    while i < src.len()
        invariant
            p <= i <= src@.len(),
            acc >= start,
            length_at(src@, p as int, start as int, truncated@, overflow@) == length_at(
                src@,
                i as int,
                acc as int,
                truncated@,
                overflow@,
            ),
        decreases src@.len() - i,
    {
        let b: u8 = src[i];
        i += 1;
        acc = match acc.checked_add(b as usize) {
            Some(a) => a,
            None => return Err(bad(overflow)),
        };
        if b != 255 {
            return Ok((acc, i));
        }
    }
    Err(bad(truncated))
}

fn read_literals(src: &[u8], p: usize) -> (r: Result<(usize, usize), PqError>)
    requires
        p < src@.len(),
    ensures
        length_read(r, literals_at(src@, p as int)),
        r matches Ok(v) ==> p < v.0 <= v.1 <= src@.len(),
{
    let nibble: usize = (src[p] / 16) as usize;
    let (n, start) = if nibble == 15 {
        read_length(src, p + 1, 15, "lz4: truncated lit-len extra", "lz4: lit-len overflow")?
    } else {
        (nibble, p + 1)
    };
    let end: usize = match start.checked_add(n) {
        Some(e) => e,
        None => return Err(bad("lz4: lit overrun overflow")),
    };
    if end > src.len() {
        let mut m = "lz4: literal section overruns src (need ".to_owned();
        m.append(decimal_text(end as i128).as_str());
        m.append(" <= ");
        m.append(decimal_text(src.len() as i128).as_str());
        m.append(")");
        return Err(PqError::Bad(m));
    }
    Ok((start, end))
}

fn read_match(src: &[u8], p: usize, token: u8, have: usize) -> (r: Result<
    (usize, usize, usize),
    PqError,
>)
    requires
        p <= src@.len(),
    ensures
        match (r, match_at(src@, p as int, token, have as int)) {
            (Ok(v), Ok(w)) => v.0 == w.0 && v.1 == w.1 && v.2 == w.2,
            (Err(x), Err(y)) => x@ == y,
            _ => false,
        },
        r matches Ok(v) ==> 1 <= v.0 <= have && p < v.2 <= src@.len(),
{
    if src.len() - p < 2 {
        return Err(bad("lz4: truncated offset"));
    }
    let offset: usize = le_u16(src, p) as usize;
    if offset == 0 {
        return Err(bad("lz4: zero offset (invalid per spec)"));
    }
    if offset > have {
        let mut m = "lz4: offset ".to_owned();
        m.append(decimal_text(offset as i128).as_str());
        m.append(" > out length ");
        m.append(decimal_text(have as i128).as_str());
        return Err(PqError::Bad(m));
    }
    let (n, next) = if token % 16 == 15 {
        read_length(
            src,
            p + 2,
            19,
            "lz4: truncated match-len extra",
            "lz4: match-len overflow",
        )?
    } else {
        ((token % 16) as usize + 4, p + 2)
    };
    Ok((offset, n, next))
}

fn finish(out: Vec<u8>, n: usize) -> (r: Result<Vec<u8>, PqError>)
    ensures
        yields(r, finished(out@, n as nat)),
        r matches Ok(v) ==> v@.len() == n,
{
    if out.len() != n {
        let mut m = "lz4: decoded ".to_owned();
        m.append(decimal_text(out.len() as i128).as_str());
        m.append(" bytes, expected ");
        m.append(decimal_text(n as i128).as_str());
        return Err(PqError::Bad(m));
    }
    Ok(out)
}

/// Decompresses a raw block whose output is to be of `expected_uncompressed_size` bytes.
pub fn decompress(src: &[u8], expected_uncompressed_size: usize) -> (r: Result<Vec<u8>, PqError>)
    ensures
        yields(r, block_output(src@, expected_uncompressed_size as nat)),
        r matches Ok(v) ==> v@.len() == expected_uncompressed_size,
{
    let n: usize = expected_uncompressed_size;
    let mut out: Vec<u8> = Vec::new();
    let mut i: usize = 0;
    while i < src.len()
        invariant
            i <= src@.len(),
            out@.len() <= n,
            n == expected_uncompressed_size,
            block_output(src@, n as nat) == sequences_output(src@, i as int, out@, n as nat),
        decreases src@.len() - i,
    {
        let ghost before = out@;
        let token: u8 = src[i];
        let (start, end) = read_literals(src, i)?;
        if end - start > n - out.len() {
            return Err(bad("lz4: literals exceed declared uncompressed size"));
        }
        out.extend_from_slice(slice_subrange(src, start, end));
        assert(out@ =~= before + src@.subrange(start as int, end as int));
        if end == src.len() {
            return finish(out, n);
        }
        let (offset, len, next) = read_match(src, end, token, out.len())?;
        if len > n - out.len() {
            return Err(bad("lz4: match exceeds declared uncompressed size"));
        }
        copy_match(&mut out, offset, len);
        i = next;
    }
    finish(out, n)
}

} // verus!
