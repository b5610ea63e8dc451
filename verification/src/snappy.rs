//! Raw Snappy blocks, the form in which Parquet compresses a page.
use vstd::prelude::*;
use vstd::slice::slice_subrange;
use vstd::string::*;

use crate::bytes::{le, le_number, le_u16, le_u32, lemma_le_bound, lemma_pow256_values};
use crate::error::{bad, decimal, decimal_text, PqError, PqErrorView};
use crate::lz::{copied, copy_match};
use crate::varint::{read_varint, varint_at, Varint, VarintView};

verus! {

/// No block is decompressed to more bytes than this.
pub const SNAPPY_MAX_DECOMP: usize = 0x1000_0000;

/// An element of a block, with the position behind it.
pub enum Element {
    /// The `len` bytes at position `start`.
    Literal { start: int, len: int, next: int },
    /// `len` bytes that stand `offset` bytes back in the output.
    Copy { offset: int, len: int, next: int },
}

/// The element at position `p`: its low two bits say whether it is a literal or a copy, and how
/// many bytes the copy's offset takes.
pub open spec fn element_at(s: Seq<u8>, p: int) -> Result<Element, PqErrorView> {
    let tag = s[p];
    let high = (tag / 4) as int;
    let q = p + 1;
    if tag % 4 == 0 {
        let extra = if high >= 60 {
            high - 59
        } else {
            0
        };
        if q + extra > s.len() {
            Err(PqErrorView::Bad("snappy literal len truncated"@))
        } else {
            let len = 1 + if high >= 60 {
                le(s.subrange(q, q + extra)) as int
            } else {
                high
            };
            if len > usize::MAX {
                Err(PqErrorView::Bad("snappy literal len overflow"@))
            } else if q + extra + len > usize::MAX {
                Err(PqErrorView::Bad("snappy literal end overflow"@))
            } else if q + extra + len > s.len() {
                Err(PqErrorView::Bad("snappy literal past src"@))
            } else {
                Ok(Element::Literal { start: q + extra, len, next: q + extra + len })
            }
        }
    } else if tag % 4 == 1 {
        if q + 1 > s.len() {
            Err(PqErrorView::Bad("snappy copy1 off truncated"@))
        } else {
            Ok(
                Element::Copy {
                    offset: (tag / 32) * 256 + s[q],
                    len: 4 + (tag / 4) % 8,
                    next: q + 1,
                },
            )
        }
    } else if tag % 4 == 2 {
        if q + 2 > s.len() {
            Err(PqErrorView::Bad("snappy copy2 off truncated"@))
        } else {
            Ok(
                Element::Copy {
                    offset: le(s.subrange(q, q + 2)) as int,
                    len: 1 + high,
                    next: q + 2,
                },
            )
        }
    } else {
        if q + 4 > s.len() {
            Err(PqErrorView::Bad("snappy copy4 off truncated"@))
        } else {
            Ok(
                Element::Copy {
                    offset: le(s.subrange(q, q + 4)) as int,
                    len: 1 + high,
                    next: q + 4,
                },
            )
        }
    }
}

/// The output `out` with an element put behind it, where the whole must not exceed `n` bytes.
pub open spec fn element_output(s: Seq<u8>, e: Element, out: Seq<u8>, n: nat) -> Result<
    Seq<u8>,
    PqErrorView,
> {
    match e {
        Element::Literal { start, len, .. } => if out.len() + len > n {
            Err(PqErrorView::Bad("snappy literal overproduces"@))
        } else {
            Ok(out + s.subrange(start, start + len))
        },
        Element::Copy { offset, len, .. } => if offset == 0 || offset > out.len() {
            Err(PqErrorView::Bad("snappy copy offset out of range"@))
        } else if out.len() + len > n {
            Err(PqErrorView::Bad("snappy copy overproduces"@))
        } else {
            Ok(copied(out, offset, len as nat))
        },
    }
}

/// The position behind an element.
pub open spec fn element_next(e: Element) -> int {
    match e {
        Element::Literal { next, .. } => next,
        Element::Copy { next, .. } => next,
    }
}

/// The output of the elements from position `p` on, behind the output `out` so far; the whole must
/// come to `n` bytes.
pub open spec fn elements_output(s: Seq<u8>, p: int, out: Seq<u8>, n: nat) -> Result<
    Seq<u8>,
    PqErrorView,
>
    decreases s.len() - p,
{
    if p >= s.len() {
        if out.len() == n {
            Ok(out)
        } else {
            Err(PqErrorView::Bad("snappy output length != uncompressed_page_size"@))
        }
    } else {
        match element_at(s, p) {
            Err(x) => Err(x),
            Ok(e) => match element_output(s, e, out, n) {
                Err(x) => Err(x),
                Ok(out2) => elements_output(s, element_next(e), out2, n),
            },
        }
    }
}

/// What the block `s` decompresses to, where the output is to be of `n` bytes.
pub open spec fn block_output(s: Seq<u8>, n: nat) -> Result<Seq<u8>, PqErrorView> {
    if n > SNAPPY_MAX_DECOMP {
        Err(
            PqErrorView::Unsupported(
                "snappy page "@ + decimal(n as int) + " exceeds "@ + decimal(
                    SNAPPY_MAX_DECOMP as int,
                ) + " cap: OBJ-2c"@,
            ),
        )
    } else {
        match varint_at(s, 0, 5) {
            VarintView::Truncated => Err(PqErrorView::Bad("snappy varint truncated"@)),
            VarintView::TooLong => Err(PqErrorView::Bad("snappy varint too long"@)),
            VarintView::Value { value, end } => if value != n {
                Err(PqErrorView::Bad("snappy preamble length != uncompressed_page_size"@))
            } else {
                elements_output(s, end, Seq::empty(), n)
            },
        }
    }
}

/// Whether decompression gave the output.
pub open spec fn yields(r: Result<Vec<u8>, PqError>, s: Result<Seq<u8>, PqErrorView>) -> bool {
    match (r, s) {
        (Ok(v), Ok(w)) => v@ == w,
        (Err(x), Err(y)) => x@ == y,
        _ => false,
    }
}

/// Decodes the literal at position `pos` and appends it.
fn read_literal(src: &[u8], pos: usize, n: usize, out: &mut Vec<u8>) -> (r: Result<usize, PqError>)
    requires
        pos < src@.len(),
        src@[pos as int] % 4 == 0,
        old(out)@.len() <= n,
    ensures
        match element_at(src@, pos as int) {
            Err(y) => r matches Err(x) && x@ == y,
            Ok(e) => match element_output(src@, e, old(out)@, n as nat) {
                Err(y) => r matches Err(x) && x@ == y,
                Ok(o) => r matches Ok(next) && next == element_next(e) && final(out)@ == o,
            },
        },
        r matches Ok(next) ==> pos < next <= src@.len() && final(out)@.len() <= n,
{
    let tag: u8 = src[pos];
    let high: usize = (tag / 4) as usize;
    let q: usize = pos + 1;
    let extra: usize = if high >= 60 {
        high - 59
    } else {
        0
    };
    if extra > src.len() - q {
        return Err(bad("snappy literal len truncated"));
    }
    let start: usize = q + extra;
    let minus_one: usize = if high >= 60 {
        let t = slice_subrange(src, q, start);
        let v: u64 = le_number(t);
        proof {
            lemma_pow256_values();
            lemma_le_bound(t@);
            assert(extra == 1 || extra == 2 || extra == 3 || extra == 4);
        }
        v as usize
    } else {
        high
    };
    let len: usize = match minus_one.checked_add(1) {
        Some(l) => l,
        None => return Err(bad("snappy literal len overflow")),
    };
    let end: usize = match start.checked_add(len) {
        Some(e) => e,
        None => return Err(bad("snappy literal end overflow")),
    };
    if end > src.len() {
        return Err(bad("snappy literal past src"));
    }
    if len > n - out.len() {
        return Err(bad("snappy literal overproduces"));
    }
    let ghost before = out@;
    out.extend_from_slice(slice_subrange(src, start, end));
    assert(out@ =~= before + src@.subrange(start as int, end as int));
    Ok(end)
}

/// Decodes the copy at position `pos` and appends the bytes it stands for.
fn read_copy(src: &[u8], pos: usize, n: usize, out: &mut Vec<u8>) -> (r: Result<usize, PqError>)
    requires
        pos < src@.len(),
        src@[pos as int] % 4 != 0,
        old(out)@.len() <= n,
    ensures
        match element_at(src@, pos as int) {
            Err(y) => r matches Err(x) && x@ == y,
            Ok(e) => match element_output(src@, e, old(out)@, n as nat) {
                Err(y) => r matches Err(x) && x@ == y,
                Ok(o) => r matches Ok(next) && next == element_next(e) && final(out)@ == o,
            },
        },
        r matches Ok(next) ==> pos < next <= src@.len() && final(out)@.len() <= n,
{
    let tag: u8 = src[pos];
    let q: usize = pos + 1;
    let left: usize = src.len() - q;
    let kind: u8 = tag % 4;
    let (len, offset, next): (usize, usize, usize) = if kind == 1 {
        if left < 1 {
            return Err(bad("snappy copy1 off truncated"));
        }
        (4 + ((tag / 4) % 8) as usize, (tag / 32) as usize * 256 + src[q] as usize, q + 1)
    } else if kind == 2 {
        if left < 2 {
            return Err(bad("snappy copy2 off truncated"));
        }
        (1 + (tag / 4) as usize, le_u16(src, q) as usize, q + 2)
    } else {
        if left < 4 {
            return Err(bad("snappy copy4 off truncated"));
        }
        (1 + (tag / 4) as usize, le_u32(src, q) as usize, q + 4)
    };
    if offset == 0 || offset > out.len() {
        return Err(bad("snappy copy offset out of range"));
    }
    if len > n - out.len() {
        return Err(bad("snappy copy overproduces"));
    }
    copy_match(out, offset, len);
    Ok(next)
}

/// Decompresses a raw block whose output is to be of `expected_len` bytes.
pub fn decompress(src: &[u8], expected_len: usize) -> (r: Result<Vec<u8>, PqError>)
    ensures
        yields(r, block_output(src@, expected_len as nat)),
        r matches Ok(v) ==> v@.len() == expected_len,
{
    if expected_len > SNAPPY_MAX_DECOMP {
        let mut m = "snappy page ".to_owned();
        m.append(decimal_text(expected_len as i128).as_str());
        m.append(" exceeds ");
        m.append(decimal_text(SNAPPY_MAX_DECOMP as i128).as_str());
        m.append(" cap: OBJ-2c");
        return Err(PqError::Unsupported(m));
    }
    let (declared, start) = match read_varint(src, 0, 5) {
        Varint::Value { value, end } => (value, end),
        Varint::Truncated => return Err(bad("snappy varint truncated")),
        Varint::TooLong => return Err(bad("snappy varint too long")),
    };
    if declared != expected_len as u64 {
        return Err(bad("snappy preamble length != uncompressed_page_size"));
    }
    let mut out: Vec<u8> = Vec::new();
    let mut pos: usize = start;
    while pos < src.len()
        invariant
            pos <= src@.len(),
            out@.len() <= expected_len,
            block_output(src@, expected_len as nat) == elements_output(
                src@,
                pos as int,
                out@,
                expected_len as nat,
            ),
        decreases src@.len() - pos,
    {
        let tag: u8 = src[pos];
        if tag % 4 == 0 {
            pos = read_literal(src, pos, expected_len, &mut out)?;
        } else {
            pos = read_copy(src, pos, expected_len, &mut out)?;
        }
    }
    if out.len() != expected_len {
        return Err(bad("snappy output length != uncompressed_page_size"));
    }
    Ok(out)
}

} // verus!
