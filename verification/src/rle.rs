//! The hybrid of run-length coding and bit packing in which Parquet stores levels and dictionary
//! indices.
use vstd::prelude::*;
use vstd::slice::slice_subrange;

use crate::bytes::{bits_at, le, le_number, le_u32, read_bits};
use crate::error::{bad, PqError, PqErrorView};
use crate::varint::{read_varint, varint_at, Varint, VarintView};

verus! {

/// The number of bytes that hold a value of `w` bits.
pub open spec fn value_bytes(w: nat) -> nat {
    (w + 7) / 8
}

/// The smaller of two numbers.
pub open spec fn least(a: nat, b: nat) -> nat {
    if a <= b {
        a
    } else {
        b
    }
}

/// The first `m` values of `w` bits in a bit-packed run.
pub open spec fn packed_values(c: Seq<u8>, w: nat, m: nat) -> Seq<u64> {
    Seq::new(m, |i: int| bits_at(c, i * w, w) as u64)
}

/// `m` times the value `v`.
pub open spec fn repeated(v: u64, m: nat) -> Seq<u64> {
    Seq::new(m, |i: int| v)
}

/// One run of a hybrid stream: the values it gives towards the `need` still wanted, and the
/// position behind it. A run that holds more values than are wanted gives the first of them.
pub open spec fn run_at(d: Seq<u8>, p: int, w: nat, need: nat) -> Result<
    (Seq<u64>, int),
    PqErrorView,
> {
    match varint_at(d, p, 10) {
        VarintView::Truncated => Err(PqErrorView::Bad("rle varint truncated"@)),
        VarintView::TooLong => Err(PqErrorView::Bad("rle varint too long"@)),
        VarintView::Value { value, end } => if value % 2 == 1 {
            let groups = (value / 2) as nat;
            if groups * 8 > u64::MAX {
                Err(PqErrorView::Bad("rle bitpack value count overflow"@))
            } else if groups * w > u64::MAX {
                Err(PqErrorView::Bad("rle bitpack byte count overflow"@))
            } else if groups * w > usize::MAX {
                Err(PqErrorView::Bad("rle bitpack byte count range"@))
            } else if end + groups * w > usize::MAX {
                Err(PqErrorView::Bad("rle bitpack position overflow"@))
            } else if end + groups * w > d.len() {
                Err(PqErrorView::Bad("rle bitpack run truncated"@))
            } else if groups * 8 > usize::MAX {
                Err(PqErrorView::Bad("rle bitpack value count range"@))
            } else {
                Ok(
                    (
                        packed_values(
                            d.subrange(end, end + groups * w),
                            w,
                            least(need, groups * 8),
                        ),
                        (end + groups * w) as int,
                    ),
                )
            }
        } else {
            let n = value_bytes(w) as int;
            if end + n > usize::MAX {
                Err(PqErrorView::Bad("rle value position overflow"@))
            } else if end + n > d.len() {
                Err(PqErrorView::Bad("rle repeated value truncated"@))
            } else {
                Ok(
                    (
                        repeated(
                            le(d.subrange(end, end + n)) as u64,
                            least(need, (value / 2) as nat),
                        ),
                        end + n,
                    ),
                )
            }
        },
    }
}

/// The first `need` values, of `w` bits each, of the hybrid stream at position `p`.
pub open spec fn hybrid_at(d: Seq<u8>, p: int, w: nat, need: nat) -> Result<Seq<u64>, PqErrorView>
    decreases d.len() - p, need,
{
    if need == 0 {
        Ok(Seq::empty())
    } else {
        match run_at(d, p, w, need) {
            Err(x) => Err(x),
            Ok((v, e)) => if p < e <= d.len() && v.len() <= need {
                match hybrid_at(d, e, w, (need - v.len()) as nat) {
                    Err(x) => Err(x),
                    Ok(rest) => Ok(v + rest),
                }
            } else {
                Ok(v)
            },
        }
    }
}

/// The first `n` values, of `w` bits each, of a hybrid stream.
pub open spec fn hybrid(d: Seq<u8>, w: nat, n: nat) -> Result<Seq<u64>, PqErrorView> {
    if w > 64 {
        Err(PqErrorView::Bad("rle bit_width > 64"@))
    } else {
        hybrid_at(d, 0, w, n)
    }
}

/// The `n` levels of `w` bits in a stream with a length prefix, and how many bytes prefix and
/// stream take.
pub open spec fn prefixed_levels(d: Seq<u8>, w: nat, n: nat) -> Result<
    (Seq<u64>, int),
    PqErrorView,
> {
    if d.len() < 4 {
        Err(PqErrorView::Bad("rle level length prefix truncated"@))
    } else {
        let end = 4 + le(d.subrange(0, 4));
        if end > usize::MAX {
            Err(PqErrorView::Bad("rle level length overflow"@))
        } else if end > d.len() {
            Err(PqErrorView::Bad("rle level body truncated"@))
        } else {
            match hybrid(d.subrange(4, end as int), w, n) {
                Err(x) => Err(x),
                Ok(v) => Ok((v, end as int)),
            }
        }
    }
}

/// A result with `out` put in front of its values.
pub open spec fn preceded(out: Seq<u64>, r: Result<Seq<u64>, PqErrorView>) -> Result<
    Seq<u64>,
    PqErrorView,
> {
    match r {
        Ok(rest) => Ok(out + rest),
        Err(x) => Err(x),
    }
}

/// Whether decoding gave the values.
pub open spec fn gives(r: Result<Vec<u64>, PqError>, s: Result<Seq<u64>, PqErrorView>) -> bool {
    match (r, s) {
        (Ok(v), Ok(w)) => v@ == w,
        (Err(x), Err(y)) => x@ == y,
        _ => false,
    }
}

/// Appends the first `m` values of a bit-packed run.
fn push_packed(c: &[u8], w: u32, m: usize, out: &mut Vec<u64>)
    requires
        w <= 64,
        m * w <= 8 * c@.len(),
    ensures
        final(out)@ == old(out)@ + packed_values(c@, w as nat, m as nat),
{
    let ghost start = out@;
    let mut i: usize = 0;
    let mut byte: usize = 0;
    let mut shift: u8 = 0;
    while i < m
        invariant
            i <= m,
            w <= 64,
            m * w <= 8 * c@.len(),
            shift < 8,
            8 * byte + shift == i * w,
            out@ =~= start + packed_values(c@, w as nat, i as nat),
        decreases m - i,
    {
        proof {
            assert(c@.len() == c.len());
            assert((i + 1) * w == i * w + w) by (nonlinear_arith);
            assert((i + 1) * w <= m * w) by (nonlinear_arith)
                requires
                    i + 1 <= m,
                    w >= 0,
            ;
            crate::bytes::lemma_bits_bound(c@, i * w, w as nat);
            vstd::arithmetic::power2::lemma2_to64();
            if w < 64 {
                vstd::arithmetic::power2::lemma_pow2_strictly_increases(w as nat, 64);
            }
        }
        let v: u64 = read_bits(c, byte, shift, w);
        out.push(v);
        let moved: u32 = shift as u32 + w;
        byte = byte + (moved / 8) as usize;
        shift = (moved % 8) as u8;
        i += 1;
    }
}

/// Appends `m` copies of a value.
fn push_repeated(v: u64, m: usize, out: &mut Vec<u64>)
    ensures
        final(out)@ == old(out)@ + repeated(v, m as nat),
{
    let ghost start = out@;
    let mut i: usize = 0;
    while i < m
        invariant
            i <= m,
            out@ =~= start + repeated(v, i as nat),
        decreases m - i,
    {
        out.push(v);
        i += 1;
    }
}

/// Reads one run, appends the values it gives towards the `need` still wanted, and returns the
/// position behind it.
fn read_run(data: &[u8], pos: usize, w: u32, need: usize, out: &mut Vec<u64>) -> (r: Result<
    usize,
    PqError,
>)
    requires
        w <= 64,
        pos <= data@.len(),
    ensures
        match (r, run_at(data@, pos as int, w as nat, need as nat)) {
            (Ok(e), Ok((v, end))) => e == end && final(out)@ == old(out)@ + v,
            (Err(x), Err(y)) => x@ == y,
            _ => false,
        },
        r matches Ok(e) ==> pos < e <= data@.len(),
{
    let (header, at) = match read_varint(data, pos, 10) {
        Varint::Value { value, end } => (value, end),
        Varint::Truncated => return Err(bad("rle varint truncated")),
        Varint::TooLong => return Err(bad("rle varint too long")),
    };
    let count: u64 = header / 2;
    if header % 2 == 1 {
        let total: u64 = match count.checked_mul(8) {
            Some(t) => t,
            None => return Err(bad("rle bitpack value count overflow")),
        };
        let nbytes_u64: u64 = match count.checked_mul(w as u64) {
            Some(t) => t,
            None => return Err(bad("rle bitpack byte count overflow")),
        };
        if nbytes_u64 > usize::MAX as u64 {
            return Err(bad("rle bitpack byte count range"));
        }
        let nbytes: usize = nbytes_u64 as usize;
        let end: usize = match at.checked_add(nbytes) {
            Some(e) => e,
            None => return Err(bad("rle bitpack position overflow")),
        };
        if end > data.len() {
            return Err(bad("rle bitpack run truncated"));
        }
        if total > usize::MAX as u64 {
            return Err(bad("rle bitpack value count range"));
        }
        let chunk = slice_subrange(data, at, end);
        let m: usize = if need <= total as usize {
            need
        } else {
            total as usize
        };
        proof {
            assert(m * w <= 8 * chunk@.len()) by {
                assert(m * w <= (count * 8) * w) by (nonlinear_arith)
                    requires
                        m <= count * 8,
                        w >= 0,
                ;
                assert((count * 8) * w == 8 * (count * w)) by (nonlinear_arith);
            }
        }
        push_packed(chunk, w, m, out);
        Ok(end)
    } else {
        let n: usize = (w as usize + 7) / 8;
        let end: usize = match at.checked_add(n) {
            Some(e) => e,
            None => return Err(bad("rle value position overflow")),
        };
        if end > data.len() {
            return Err(bad("rle repeated value truncated"));
        }
        let vb = slice_subrange(data, at, end);
        let v: u64 = le_number(vb);
        let m: usize = if need as u64 <= count {
            need
        } else {
            count as usize
        };
        push_repeated(v, m, out);
        Ok(end)
    }
}

/// Decodes the first `num_values` values, of `bit_width` bits each, of a hybrid stream.
pub fn decode_hybrid(data: &[u8], bit_width: u32, num_values: usize) -> (r: Result<
    Vec<u64>,
    PqError,
>)
    ensures
        gives(r, hybrid(data@, bit_width as nat, num_values as nat)),
        r matches Ok(v) ==> v@.len() == num_values,
{
    if bit_width > 64 {
        return Err(bad("rle bit_width > 64"));
    }
    let mut out: Vec<u64> = Vec::new();
    let mut pos: usize = 0;
    proof {
        match hybrid_at(data@, 0, bit_width as nat, num_values as nat) {
            Ok(v) => {
                assert(out@ + v =~= v);
            },
            Err(_) => {},
        }
    }
    while out.len() < num_values
        invariant
            bit_width <= 64,
            pos <= data@.len(),
            out@.len() <= num_values,
            hybrid_at(data@, 0, bit_width as nat, num_values as nat) == preceded(
                out@,
                hybrid_at(data@, pos as int, bit_width as nat, (num_values - out@.len()) as nat),
            ),
        decreases data@.len() - pos,
    {
        let ghost before = out@;
        let ghost at = pos;
        let need: usize = num_values - out.len();
        pos = read_run(data, pos, bit_width, need, &mut out)?;
        proof {
            let (v, e) = run_at(data@, at as int, bit_width as nat, need as nat)->Ok_0;
            assert(v.len() <= need);
            match hybrid_at(data@, e, bit_width as nat, (need - v.len()) as nat) {
                Ok(rest) => {
                    assert(before + (v + rest) =~= out@ + rest);
                },
                Err(_) => {},
            }
        }
    }
    assert(out@ + Seq::<u64>::empty() =~= out@);
    Ok(out)
}

/// Decodes a level stream that has a four-byte length in front of it; the second part of the
/// result is how many bytes length and stream take.
pub fn decode_level_v1(data: &[u8], bit_width: u32, num_values: usize) -> (r: Result<
    (Vec<u64>, usize),
    PqError,
>)
    ensures
        match (r, prefixed_levels(data@, bit_width as nat, num_values as nat)) {
            (Ok((v, n)), Ok((w, e))) => v@ == w && n == e,
            (Err(x), Err(y)) => x@ == y,
            _ => false,
        },
        r matches Ok((v, n)) ==> v@.len() == num_values && 4 <= n <= data@.len(),
{
    if data.len() < 4 {
        return Err(bad("rle level length prefix truncated"));
    }
    let len: usize = le_u32(data, 0) as usize;
    let end: usize = match 4usize.checked_add(len) {
        Some(e) => e,
        None => return Err(bad("rle level length overflow")),
    };
    if end > data.len() {
        return Err(bad("rle level body truncated"));
    }
    let body = slice_subrange(data, 4, end);
    let levels = decode_hybrid(body, bit_width, num_values)?;
    Ok((levels, end))
}

} // verus!
