//! Gzip members and the DEFLATE streams in them.
use vstd::arithmetic::power2::{lemma2_to64, pow2};
use vstd::prelude::*;
use vstd::slice::slice_subrange;
use vstd::string::*;

use crate::bitreader::BitReader;
use crate::bytes::{bit_at, bits_at, le, le_u16, le_u32, lemma_bits_bound};
use crate::error::{bad, decimal, decimal_text, text5, PqError, PqErrorView};
use crate::lz::{copied, copy_match};
use crate::snappy::yields;

verus! {

/// No member is decompressed to more bytes than this.
pub const GZIP_MAX_DECOMP: usize = 0x1000_0000;

/// The complaint about a stream that ends too early.
pub open spec fn truncated() -> PqErrorView {
    PqErrorView::Bad("gzip: deflate stream truncated"@)
}

/// The symbols below `n` whose code has `len` bits, in order.
pub open spec fn coded_below(lengths: Seq<u8>, len: int, n: int) -> Seq<int>
    decreases n,
{
    if n <= 0 {
        Seq::empty()
    } else if lengths[n - 1] == len {
        coded_below(lengths, len, n - 1).push(n - 1)
    } else {
        coded_below(lengths, len, n - 1)
    }
}

/// The symbols whose code has `len` bits, in order.
pub open spec fn coded(lengths: Seq<u8>, len: int) -> Seq<int> {
    coded_below(lengths, len, lengths.len() as int)
}

/// The symbol of the canonical code at bit `p`, and the bit behind it. `code` is what has been read
/// of it, most significant bit first, and `first` is the first code of `len` bits.
pub open spec fn symbol_from(c: Seq<u8>, lengths: Seq<u8>, p: int, len: int, code: int, first: int) -> Result<
    (int, int),
    PqErrorView,
>
    decreases 16 - len,
{
    if len > 15 {
        Err(PqErrorView::Bad("gzip: invalid code"@))
    } else if p >= 8 * c.len() {
        Err(truncated())
    } else {
        let here = 2 * code + bit_at(c, p);
        let syms = coded(lengths, len);
        if first <= here < first + syms.len() {
            Ok((syms[here - first], p + 1))
        } else {
            symbol_from(c, lengths, p + 1, len + 1, here, 2 * (first + syms.len()))
        }
    }
}

/// The symbol of the canonical code at bit `p`, and the bit behind it.
pub open spec fn symbol_at(c: Seq<u8>, lengths: Seq<u8>, p: int) -> Result<(int, int), PqErrorView> {
    symbol_from(c, lengths, p, 1, 0, 0)
}

/// The number in the `n` bits at bit `p`, and the bit behind it.
pub open spec fn field_at(c: Seq<u8>, p: int, n: nat) -> Result<(int, int), PqErrorView> {
    if p + n > 8 * c.len() {
        Err(truncated())
    } else {
        Ok((bits_at(c, p, n) as int, p + n))
    }
}

/// How many bits follow the length symbol `s`.
pub open spec fn length_extra(s: int) -> int {
    if s < 265 || s == 285 {
        0
    } else {
        (s - 261) / 4
    }
}

/// The least length that the length symbol `s` stands for.
pub open spec fn length_base(s: int) -> int {
    if s < 265 {
        s - 254
    } else if s == 285 {
        258
    } else {
        (4 + (s - 265) % 4) * pow2(length_extra(s) as nat) + 3
    }
}

/// How many bits follow the distance symbol `s`.
pub open spec fn distance_extra(s: int) -> int {
    if s < 4 {
        0
    } else {
        s / 2 - 1
    }
}

/// The least distance that the distance symbol `s` stands for.
pub open spec fn distance_base(s: int) -> int {
    if s < 4 {
        s + 1
    } else {
        (2 + s % 2) * pow2(distance_extra(s) as nat) + 1
    }
}

/// A copy: how long it is and from how far back, and the bit behind it.
pub open spec fn copy_at(c: Seq<u8>, dists: Seq<u8>, sym: int, p: int) -> Result<
    (int, int, int),
    PqErrorView,
> {
    if sym > 285 {
        Err(PqErrorView::Bad("gzip: invalid length symbol"@))
    } else {
        match field_at(c, p, length_extra(sym) as nat) {
            Err(x) => Err(x),
            Ok((le, p1)) => match symbol_at(c, dists, p1) {
                Err(x) => Err(x),
                Ok((d, p2)) => if d > 29 {
                    Err(PqErrorView::Bad("gzip: invalid distance symbol"@))
                } else {
                    match field_at(c, p2, distance_extra(d) as nat) {
                        Err(x) => Err(x),
                        Ok((de, p3)) => Ok((length_base(sym) + le, distance_base(d) + de, p3)),
                    }
                },
            },
        }
    }
}

/// The output of the compressed block whose next symbol stands at bit `p`, behind the output `out`
/// so far, which must not exceed `n` bytes; and the bit behind the block.
pub open spec fn codes_output(
    c: Seq<u8>,
    lits: Seq<u8>,
    dists: Seq<u8>,
    p: int,
    out: Seq<u8>,
    n: nat,
) -> Result<(Seq<u8>, int), PqErrorView>
    decreases 8 * c.len() - p,
{
    match symbol_at(c, lits, p) {
        Err(x) => Err(x),
        Ok((sym, p1)) => if !(p < p1 <= 8 * c.len()) {
            Ok((out, p1))
        } else if sym < 256 {
            if out.len() + 1 > n {
                Err(PqErrorView::Bad("gzip: output exceeds declared size"@))
            } else {
                codes_output(c, lits, dists, p1, out.push(sym as u8), n)
            }
        } else if sym == 256 {
            Ok((out, p1))
        } else {
            match copy_at(c, dists, sym, p1) {
                Err(x) => Err(x),
                Ok((len, dist, p2)) => if dist > out.len() {
                    Err(PqErrorView::Bad("gzip: distance too far back"@))
                } else if out.len() + len > n {
                    Err(PqErrorView::Bad("gzip: output exceeds declared size"@))
                } else if !(p1 <= p2 <= 8 * c.len()) {
                    Ok((out, p2))
                } else {
                    codes_output(c, lits, dists, p2, copied(out, dist, len as nat), n)
                }
            }
        },
    }
}

/// The output of the stored block whose header ends before bit `p`, and the bit behind the block.
pub open spec fn stored_output(c: Seq<u8>, p: int, out: Seq<u8>, n: nat) -> Result<
    (Seq<u8>, int),
    PqErrorView,
> {
    let at = (p + 7) / 8;
    if at + 4 > c.len() {
        Err(truncated())
    } else {
        let len = le(c.subrange(at, at + 2)) as int;
        let inverse = le(c.subrange(at + 2, at + 4)) as int;
        if len + inverse != 0xffff {
            Err(PqErrorView::Bad("gzip: stored block length mismatch"@))
        } else if at + 4 + len > c.len() {
            Err(truncated())
        } else if out.len() + len > n {
            Err(PqErrorView::Bad("gzip: output exceeds declared size"@))
        } else {
            Ok((out + c.subrange(at + 4, at + 4 + len), 8 * (at + 4 + len)))
        }
    }
}

/// The code lengths of the fixed literal code.
pub open spec fn fixed_lits() -> Seq<u8> {
    Seq::new(
        288,
        |i: int|
            if i < 144 {
                8u8
            } else if i < 256 {
                9u8
            } else if i < 280 {
                7u8
            } else {
                8u8
            },
    )
}

/// The code lengths of the fixed distance code.
pub open spec fn fixed_dists() -> Seq<u8> {
    Seq::new(30, |i: int| 5u8)
}

/// For which symbol the code length with number `i` in a dynamic block's header is.
pub open spec fn length_symbol(i: int) -> int {
    if i < 3 {
        16 + i
    } else if i == 3 {
        0
    } else if i % 2 == 0 {
        8 + (i - 4) / 2
    } else {
        7 - (i - 5) / 2
    }
}

/// The code lengths of the code for code lengths, of which the first `k` stand at bit `p`, and the
/// bit behind them.
pub open spec fn length_lengths(c: Seq<u8>, p: int, k: nat) -> Result<(Seq<u8>, int), PqErrorView>
    decreases k,
{
    if k == 0 {
        Ok((Seq::new(19, |i: int| 0u8), p))
    } else {
        match length_lengths(c, p, (k - 1) as nat) {
            Err(x) => Err(x),
            Ok((s, q)) => match field_at(c, q, 3) {
                Err(x) => Err(x),
                Ok((v, q2)) => Ok((s.update(length_symbol(k - 1), v as u8), q2)),
            },
        }
    }
}

/// `m` copies of a code length.
pub open spec fn copies(v: u8, m: int) -> Seq<u8> {
    Seq::new(m as nat, |i: int| v)
}

/// The code lengths up to the number `total`, of which `have` are known and the next stands at bit
/// `p`, and the bit behind them.
pub open spec fn lengths_from(c: Seq<u8>, code: Seq<u8>, p: int, have: Seq<u8>, total: int) -> Result<
    (Seq<u8>, int),
    PqErrorView,
>
    decreases 8 * c.len() - p,
{
    if have.len() >= total {
        Ok((have, p))
    } else {
        match symbol_at(c, code, p) {
            Err(x) => Err(x),
            Ok((sym, p1)) => if !(p < p1 <= 8 * c.len()) {
                Ok((have, p1))
            } else if sym < 16 {
                lengths_from(c, code, p1, have.push(sym as u8), total)
            } else if sym == 16 && have.len() == 0 {
                Err(PqErrorView::Bad("gzip: no code length to repeat"@))
            } else {
                let width = if sym == 16 {
                    2nat
                } else if sym == 17 {
                    3nat
                } else {
                    7nat
                };
                let base = if sym == 18 {
                    11int
                } else {
                    3int
                };
                let v = if sym == 16 {
                    have.last()
                } else {
                    0u8
                };
                match field_at(c, p1, width) {
                    Err(x) => Err(x),
                    Ok((more, p2)) => if have.len() + base + more > total {
                        Err(PqErrorView::Bad("gzip: too many code lengths"@))
                    } else {
                        lengths_from(c, code, p2, have + copies(v, base + more), total)
                    },
                }
            },
        }
    }
}

/// The code lengths of a dynamic block whose header fields start at bit `p`: those of literals, those
/// of distances, and the bit behind them.
pub open spec fn dynamic_lengths(c: Seq<u8>, p: int) -> Result<(Seq<u8>, Seq<u8>, int), PqErrorView> {
    if p + 14 > 8 * c.len() {
        Err(truncated())
    } else {
        let nlit = bits_at(c, p, 5) as int + 257;
        let ndist = bits_at(c, p + 5, 5) as int + 1;
        let ncode = bits_at(c, p + 10, 4) + 4;
        if nlit > 286 || ndist > 30 {
            Err(PqErrorView::Bad("gzip: too many symbols"@))
        } else {
            match length_lengths(c, p + 14, ncode) {
                Err(x) => Err(x),
                Ok((code, p1)) => match lengths_from(c, code, p1, Seq::empty(), nlit + ndist) {
                    Err(x) => Err(x),
                    Ok((all, p2)) => if all[256] == 0 {
                        Err(PqErrorView::Bad("gzip: no end-of-block code"@))
                    } else {
                        Ok((all.take(nlit), all.skip(nlit), p2))
                    },
                },
            }
        }
    }
}

/// The output of the block of type `kind` whose content starts at bit `p`.
pub open spec fn block_content(c: Seq<u8>, kind: int, p: int, out: Seq<u8>, n: nat) -> Result<
    (Seq<u8>, int),
    PqErrorView,
> {
    if kind == 0 {
        stored_output(c, p, out, n)
    } else if kind == 1 {
        codes_output(c, fixed_lits(), fixed_dists(), p, out, n)
    } else if kind == 2 {
        match dynamic_lengths(c, p) {
            Err(x) => Err(x),
            Ok((lits, dists, p1)) => codes_output(c, lits, dists, p1, out, n),
        }
    } else {
        Err(PqErrorView::Bad("gzip: invalid block type"@))
    }
}

/// The output of the blocks from bit `p` on, behind the output `out` so far, and the bit behind the
/// last block.
pub open spec fn blocks_output(c: Seq<u8>, p: int, out: Seq<u8>, n: nat) -> Result<
    (Seq<u8>, int),
    PqErrorView,
>
    decreases 8 * c.len() - p,
{
    if p + 3 > 8 * c.len() {
        Err(truncated())
    } else {
        match block_content(c, bits_at(c, p + 1, 2) as int, p + 3, out, n) {
            Err(x) => Err(x),
            Ok((out2, p2)) => if bit_at(c, p) == 1 || !(p < p2 <= 8 * c.len()) {
                Ok((out2, p2))
            } else {
                blocks_output(c, p2, out2, n)
            },
        }
    }
}

/// One step of the checksum's polynomial division.
pub open spec fn crc_bit(c: u32) -> u32 {
    if c % 2 == 1 {
        (c / 2) ^ 0xedb8_8320u32
    } else {
        c / 2
    }
}

/// `k` steps of the checksum's polynomial division.
pub open spec fn crc_bits(c: u32, k: nat) -> u32
    decreases k,
{
    if k == 0 {
        c
    } else {
        crc_bit(crc_bits(c, (k - 1) as nat))
    }
}

/// The checksum register after some bytes.
pub open spec fn crc_register(s: Seq<u8>) -> u32
    decreases s.len(),
{
    if s.len() == 0 {
        0xffff_ffffu32
    } else {
        crc_bits(crc_register(s.drop_last()) ^ (s.last() as u32), 8)
    }
}

/// The CRC-32 of some bytes.
pub open spec fn crc32(s: Seq<u8>) -> u32 {
    crc_register(s) ^ 0xffff_ffffu32
}

/// The position behind the first zero byte at or after `p`.
pub open spec fn after_zero(s: Seq<u8>, p: int) -> Option<int>
    decreases s.len() - p,
{
    if p >= s.len() {
        None
    } else if s[p] == 0 {
        Some(p + 1)
    } else {
        after_zero(s, p + 1)
    }
}

/// The complaint about a header that ends too early.
pub open spec fn short_header() -> PqErrorView {
    PqErrorView::Bad("gzip: header truncated"@)
}

/// The position behind a header's extra field, where it has one.
pub open spec fn after_extra(s: Seq<u8>, p: int) -> Result<int, PqErrorView> {
    if (s[3] / 4) % 2 == 0 {
        Ok(p)
    } else if p + 2 > s.len() {
        Err(short_header())
    } else {
        let e = p + 2 + le(s.subrange(p, p + 2));
        if e > s.len() {
            Err(short_header())
        } else {
            Ok(e as int)
        }
    }
}

/// The position behind a zero-terminated text of a header, where the header has it.
pub open spec fn after_text(s: Seq<u8>, there: bool, p: int) -> Result<int, PqErrorView> {
    if !there {
        Ok(p)
    } else {
        match after_zero(s, p) {
            Some(e) => Ok(e),
            None => Err(short_header()),
        }
    }
}

/// Where the content of a member starts. The fourth byte says which optional fields its header has:
/// 4 an extra field, 8 a name, 16 a comment, 2 a checksum.
pub open spec fn content_start(s: Seq<u8>) -> Result<int, PqErrorView> {
    if s.len() < 10 {
        Err(short_header())
    } else if s[0] != 0x1f || s[1] != 0x8b {
        Err(PqErrorView::Bad("gzip: bad magic"@))
    } else if s[2] != 8 {
        Err(PqErrorView::Bad("gzip: compression method is not deflate"@))
    } else if s[3] >= 32 {
        Err(PqErrorView::Bad("gzip: reserved flags set"@))
    } else {
        match after_extra(s, 10) {
            Err(x) => Err(x),
            Ok(p1) => match after_text(s, (s[3] / 8) % 2 == 1, p1) {
                Err(x) => Err(x),
                Ok(p2) => match after_text(s, (s[3] / 16) % 2 == 1, p2) {
                    Err(x) => Err(x),
                    Ok(p3) => if (s[3] / 2) % 2 == 0 {
                        Ok(p3)
                    } else if p3 + 2 > s.len() {
                        Err(short_header())
                    } else {
                        Ok(p3 + 2)
                    },
                },
            },
        }
    }
}

/// What the member `s` decompresses to, where the output is to be of `n` bytes. The member ends with
/// the checksum and the length of the output.
pub open spec fn member_output(s: Seq<u8>, n: nat) -> Result<Seq<u8>, PqErrorView> {
    if n > GZIP_MAX_DECOMP {
        Err(
            PqErrorView::Unsupported(
                "gzip page "@ + decimal(n as int) + " exceeds "@ + decimal(GZIP_MAX_DECOMP as int)
                    + " cap: OBJ-2c"@,
            ),
        )
    } else {
        match content_start(s) {
            Err(x) => Err(x),
            Ok(start) => {
                let c = s.skip(start);
                match blocks_output(c, 0, Seq::empty(), n) {
                    Err(x) => Err(x),
                    Ok((out, p)) => {
                        let e = (p + 7) / 8;
                        if e + 8 > c.len() {
                            Err(PqErrorView::Bad("gzip: trailer truncated"@))
                        } else if e + 8 != c.len() {
                            Err(PqErrorView::Bad("gzip: bytes behind the member"@))
                        } else if le(c.subrange(e, e + 4)) != crc32(out) {
                            Err(PqErrorView::Bad("gzip: CRC-32 mismatch"@))
                        } else if le(c.subrange(e + 4, e + 8)) != out.len() {
                            Err(PqErrorView::Bad("gzip: length mismatch"@))
                        } else if out.len() != n {
                            Err(
                                PqErrorView::Bad(
                                    "gzip: output length != uncompressed_page_size"@,
                                ),
                            )
                        } else {
                            Ok(out)
                        }
                    },
                }
            },
        }
    }
}

/// The symbols of a canonical code by the length of their codes.
struct Code {
    by_length: Vec<Vec<u16>>,
}

spec fn as_ints(s: Seq<u16>) -> Seq<int> {
    s.map_values(|x: u16| x as int)
}

impl Code {
    spec fn of(self, lengths: Seq<u8>) -> bool {
        &&& self.by_length@.len() == 16
        &&& lengths.len() <= 320
        &&& forall|len: int|
            1 <= len <= 15 ==> as_ints((#[trigger] self.by_length@[len])@) == coded(lengths, len)
    }
}

proof fn lemma_coded_bound(lengths: Seq<u8>, len: int, n: int)
    requires
        0 <= n,
    ensures
        coded_below(lengths, len, n).len() <= n,
        forall|i: int|
            0 <= i < coded_below(lengths, len, n).len() ==> 0 <= #[trigger] coded_below(
                lengths,
                len,
                n,
            )[i] < n,
    decreases n,
{
    if n > 0 {
        lemma_coded_bound(lengths, len, n - 1);
    }
}

fn symbols_of_length(lengths: &[u8], len: u8) -> (r: Vec<u16>)
    requires
        lengths@.len() <= 320,
    ensures
        as_ints(r@) == coded(lengths@, len as int),
{
    let mut out: Vec<u16> = Vec::new();
    let mut i: usize = 0;
    assert(as_ints(out@) =~= Seq::<int>::empty());
    while i < lengths.len()
        invariant
            i <= lengths@.len() <= 320,
            as_ints(out@) == coded_below(lengths@, len as int, i as int),
        decreases lengths@.len() - i,
    {
        let ghost before = out@;
        if lengths[i] == len {
            out.push(i as u16);
            assert(as_ints(out@) =~= as_ints(before).push(i as int));
        }
        i += 1;
    }
    out
}

fn build_code(lengths: &[u8]) -> (r: Code)
    requires
        lengths@.len() <= 320,
    ensures
        r.of(lengths@),
{
    let mut by_length: Vec<Vec<u16>> = Vec::new();
    by_length.push(Vec::new());
    let mut len: u8 = 1;
    while len < 16
        invariant
            lengths@.len() <= 320,
            1 <= len <= 16,
            by_length@.len() == len,
            forall|l: int|
                1 <= l < len ==> as_ints((#[trigger] by_length@[l])@) == coded(lengths@, l),
        decreases 16 - len,
    {
        by_length.push(symbols_of_length(lengths, len));
        len += 1;
    }
    Code { by_length }
}

fn deflate_truncated() -> (e: PqError)
    ensures
        e@ == truncated(),
{
    bad("gzip: deflate stream truncated")
}

/// Whether a read gave a number and stopped at the bit behind it.
spec fn reads_number(r: Result<usize, PqError>, at: int, s: Result<(int, int), PqErrorView>) -> bool {
    match (r, s) {
        (Ok(v), Ok(w)) => v == w.0 && at == w.1,
        (Err(x), Err(y)) => x@ == y,
        _ => false,
    }
}

/// A read leaves the bytes as they are and never moves the cursor back.
spec fn moved_on(r: &BitReader<'_>, before: &BitReader<'_>) -> bool {
    r.wf() && r.c == before.c && before.pos() <= r.pos() <= 8 * r.c@.len()
}

fn read_symbol(r: &mut BitReader<'_>, code: &Code, Ghost(lengths): Ghost<Seq<u8>>) -> (res: Result<
    usize,
    PqError,
>)
    requires
        old(r).wf(),
        code.of(lengths),
    ensures
        moved_on(final(r), old(r)),
        reads_number(res, final(r).pos(), symbol_at(old(r).c@, lengths, old(r).pos())),
        res matches Ok(v) ==> v < lengths.len() && final(r).pos() > old(r).pos(),
{
    let ghost c = r.c@;
    let ghost start = r.pos();
    let mut len: usize = 1;
    let mut now: u32 = 0;
    let mut first: u32 = 0;
    let mut w: u32 = 1;
    while len < 16
        invariant
            r.wf(),
            r.c@ == c,
            r.c == old(r).c,
            start == old(r).pos(),
            c == old(r).c@,
            code.of(lengths),
            1 <= len <= 16,
            r.pos() == start + len - 1,
            r.pos() <= 8 * c.len(),
            w <= 0x8000,
            len <= 1 ==> w == 1,
            len <= 15 ==> w <= 0x4000,
            len <= 14 ==> w <= 0x2000,
            len <= 13 ==> w <= 0x1000,
            len <= 12 ==> w <= 0x800,
            len <= 11 ==> w <= 0x400,
            len <= 10 ==> w <= 0x200,
            len <= 9 ==> w <= 0x100,
            len <= 8 ==> w <= 0x80,
            len <= 7 ==> w <= 0x40,
            len <= 6 ==> w <= 0x20,
            len <= 5 ==> w <= 0x10,
            len <= 4 ==> w <= 8,
            len <= 3 ==> w <= 4,
            len <= 2 ==> w <= 2,
            now < w,
            first <= 640 * (w - 1),
            symbol_at(c, lengths, start) == symbol_from(
                c,
                lengths,
                r.pos(),
                len as int,
                now as int,
                first as int,
            ),
        decreases 16 - len,
    {
        let b: u32 = match r.bit() {
            Some(b) => b,
            None => return Err(deflate_truncated()),
        };
        let here: u32 = 2 * now + b;
        let syms = &code.by_length[len];
        proof {
            lemma_coded_bound(lengths, len as int, lengths.len() as int);
            assert(as_ints(code.by_length@[len as int]@) == coded(lengths, len as int));
            assert(as_ints(syms@).len() == syms@.len());
        }
        if here >= first && ((here - first) as usize) < syms.len() {
            let k: usize = (here - first) as usize;
            assert(as_ints(syms@)[k as int] == syms@[k as int]);
            return Ok(syms[k] as usize);
        }
        now = here;
        first = 2 * (first + syms.len() as u32);
        w = 2 * w;
        len += 1;
    }
    Err(bad("gzip: invalid code"))
}

fn read_field(r: &mut BitReader<'_>, n: u32) -> (res: Result<usize, PqError>)
    requires
        old(r).wf(),
        n <= 16,
        old(r).pos() <= 8 * old(r).c@.len(),
    ensures
        moved_on(final(r), old(r)),
        reads_number(res, final(r).pos(), field_at(old(r).c@, old(r).pos(), n as nat)),
        res matches Ok(v) ==> v < pow2(n as nat) <= 0x1_0000,
{
    proof {
        lemma_bits_bound(r.c@, r.pos(), n as nat);
        lemma2_to64();
        if n < 16 {
            vstd::arithmetic::power2::lemma_pow2_strictly_increases(n as nat, 16);
        }
    }
    match r.bits(n) {
        Some(v) => Ok(v as usize),
        None => Err(deflate_truncated()),
    }
}

fn power_of_two(e: usize) -> (r: usize)
    requires
        e <= 13,
    ensures
        r == pow2(e as nat),
        r <= 8192,
{
    proof {
        lemma2_to64();
    }
    match e {
        0 => 1,
        1 => 2,
        2 => 4,
        3 => 8,
        4 => 16,
        5 => 32,
        6 => 64,
        7 => 128,
        8 => 256,
        9 => 512,
        10 => 1024,
        11 => 2048,
        12 => 4096,
        _ => 8192,
    }
}

fn read_copy(r: &mut BitReader<'_>, sym: usize, dists: &Code, Ghost(lengths): Ghost<Seq<u8>>) -> (res:
    Result<(usize, usize), PqError>)
    requires
        old(r).wf(),
        old(r).pos() <= 8 * old(r).c@.len(),
        dists.of(lengths),
        257 <= sym < 320,
    ensures
        moved_on(final(r), old(r)),
        match (res, copy_at(old(r).c@, lengths, sym as int, old(r).pos())) {
            (Ok(v), Ok(w)) => v.0 == w.0 && v.1 == w.1 && final(r).pos() == w.2,
            (Err(x), Err(y)) => x@ == y,
            _ => false,
        },
        res matches Ok(v) ==> v.1 >= 1 && v.0 <= 0x2_0000,
{
    if sym > 285 {
        return Err(bad("gzip: invalid length symbol"));
    }
    let extra: usize = if sym < 265 || sym == 285 {
        0
    } else {
        (sym - 261) / 4
    };
    let le: usize = read_field(r, extra as u32)?;
    let base: usize = if sym < 265 {
        sym - 254
    } else if sym == 285 {
        258
    } else {
        let p: usize = power_of_two(extra);
        let k: usize = 4 + (sym - 265) % 4;
        assert(k * p <= 7 * p && k * p >= 0) by (nonlinear_arith)
            requires
                0 <= k <= 7,
                0 <= p,
        ;
        k * p + 3
    };
    let d: usize = read_symbol(r, dists, Ghost(lengths))?;
    if d > 29 {
        return Err(bad("gzip: invalid distance symbol"));
    }
    let dextra: usize = if d < 4 {
        0
    } else {
        d / 2 - 1
    };
    let de: usize = read_field(r, dextra as u32)?;
    let dbase: usize = if d < 4 {
        d + 1
    } else {
        let p: usize = power_of_two(dextra);
        let k: usize = 2 + d % 2;
        assert(k * p <= 3 * p && k * p >= 0) by (nonlinear_arith)
            requires
                0 <= k <= 3,
                0 <= p,
        ;
        k * p + 1
    };
    Ok((base + le, dbase + de))
}

/// Whether decoding gave the output and stopped at the bit behind it.
spec fn yields_to(
    r: Result<(), PqError>,
    out: Seq<u8>,
    at: int,
    s: Result<(Seq<u8>, int), PqErrorView>,
) -> bool {
    match (r, s) {
        (Ok(_), Ok(w)) => out == w.0 && at == w.1,
        (Err(x), Err(y)) => x@ == y,
        _ => false,
    }
}

fn inflate_codes(
    r: &mut BitReader<'_>,
    lits: &Code,
    dists: &Code,
    n: usize,
    out: &mut Vec<u8>,
    Ghost(ll): Ghost<Seq<u8>>,
    Ghost(dl): Ghost<Seq<u8>>,
) -> (res: Result<(), PqError>)
    requires
        old(r).wf(),
        old(r).pos() <= 8 * old(r).c@.len(),
        lits.of(ll),
        dists.of(dl),
        old(out)@.len() <= n <= GZIP_MAX_DECOMP,
    ensures
        moved_on(final(r), old(r)),
        yields_to(
            res,
            final(out)@,
            final(r).pos(),
            codes_output(old(r).c@, ll, dl, old(r).pos(), old(out)@, n as nat),
        ),
        final(out)@.len() <= n,
{
    let ghost want = codes_output(r.c@, ll, dl, r.pos(), out@, n as nat);
    loop
        invariant
            moved_on(r, old(r)),
            lits.of(ll),
            dists.of(dl),
            out@.len() <= n <= GZIP_MAX_DECOMP,
            want == codes_output(old(r).c@, ll, dl, old(r).pos(), old(out)@, n as nat),
            want == codes_output(r.c@, ll, dl, r.pos(), out@, n as nat),
        decreases 8 * r.c@.len() - r.pos(),
    {
        let sym: usize = read_symbol(r, lits, Ghost(ll))?;
        if sym < 256 {
            if out.len() >= n {
                return Err(bad("gzip: output exceeds declared size"));
            }
            out.push(sym as u8);
        } else if sym == 256 {
            return Ok(());
        } else {
            let (len, dist) = read_copy(r, sym, dists, Ghost(dl))?;
            if dist > out.len() {
                return Err(bad("gzip: distance too far back"));
            }
            if len > n - out.len() {
                return Err(bad("gzip: output exceeds declared size"));
            }
            copy_match(out, dist, len);
        }
    }
}

fn inflate_stored(r: &mut BitReader<'_>, n: usize, out: &mut Vec<u8>) -> (res: Result<(), PqError>)
    requires
        old(r).wf(),
        old(r).pos() <= 8 * old(r).c@.len(),
        old(out)@.len() <= n,
    ensures
        moved_on(final(r), old(r)),
        yields_to(
            res,
            final(out)@,
            final(r).pos(),
            stored_output(old(r).c@, old(r).pos(), old(out)@, n as nat),
        ),
        final(out)@.len() <= n,
{
    r.align();
    let at: usize = r.byte;
    if r.c.len() - at < 4 {
        return Err(deflate_truncated());
    }
    let len: usize = le_u16(r.c, at) as usize;
    let inverse: usize = le_u16(r.c, at + 2) as usize;
    if len + inverse != 0xffff {
        return Err(bad("gzip: stored block length mismatch"));
    }
    if r.c.len() - (at + 4) < len {
        return Err(deflate_truncated());
    }
    if len > n - out.len() {
        return Err(bad("gzip: output exceeds declared size"));
    }
    let ghost before = out@;
    out.extend_from_slice(slice_subrange(r.c, at + 4, at + 4 + len));
    assert(out@ =~= before + r.c@.subrange(at + 4, at + 4 + len));
    r.byte = at + 4 + len;
    Ok(())
}

fn fixed_lit_lengths() -> (r: Vec<u8>)
    ensures
        r@ == fixed_lits(),
{
    let mut v: Vec<u8> = Vec::new();
    let mut i: usize = 0;
    while i < 288
        invariant
            i <= 288,
            v@.len() == i,
            forall|j: int| 0 <= j < i ==> #[trigger] v@[j] == fixed_lits()[j],
        decreases 288 - i,
    {
        v.push(
            if i < 144 {
                8
            } else if i < 256 {
                9
            } else if i < 280 {
                7
            } else {
                8
            },
        );
        i += 1;
    }
    assert(v@ =~= fixed_lits());
    v
}

fn push_copies(v: u8, m: usize, out: &mut Vec<u8>)
    ensures
        final(out)@ == old(out)@ + copies(v, m as int),
{
    let ghost start = out@;
    let mut i: usize = 0;
    while i < m
        invariant
            i <= m,
            out@ =~= start + copies(v, i as int),
        decreases m - i,
    {
        out.push(v);
        i += 1;
    }
}

fn length_slot(i: usize) -> (r: usize)
    requires
        i < 19,
    ensures
        r == length_symbol(i as int),
        r < 19,
{
    if i < 3 {
        16 + i
    } else if i == 3 {
        0
    } else if i % 2 == 0 {
        8 + (i - 4) / 2
    } else {
        7 - (i - 5) / 2
    }
}

proof fn lemma_length_lengths_error(c: Seq<u8>, p: int, few: nat, k: nat)
    requires
        few <= k,
        length_lengths(c, p, few) is Err,
    ensures
        length_lengths(c, p, k) == length_lengths(c, p, few),
    decreases k - few,
{
    if few < k {
        lemma_length_lengths_error(c, p, few, (k - 1) as nat);
    }
}

fn read_length_lengths(r: &mut BitReader<'_>, k: usize) -> (res: Result<Vec<u8>, PqError>)
    requires
        old(r).wf(),
        old(r).pos() <= 8 * old(r).c@.len(),
        k <= 19,
    ensures
        moved_on(final(r), old(r)),
        match (res, length_lengths(old(r).c@, old(r).pos(), k as nat)) {
            (Ok(v), Ok(w)) => v@ == w.0 && final(r).pos() == w.1 && v@.len() == 19,
            (Err(x), Err(y)) => x@ == y,
            _ => false,
        },
{
    let ghost c = r.c@;
    let ghost p = r.pos();
    let mut v: Vec<u8> = Vec::new();
    push_copies(0, 19, &mut v);
    assert(v@ =~= Seq::new(19, |i: int| 0u8));
    let mut i: usize = 0;
    while i < k
        invariant
            i <= k <= 19,
            moved_on(r, old(r)),
            c == old(r).c@,
            p == old(r).pos(),
            v@.len() == 19,
            length_lengths(c, p, i as nat) == Ok::<(Seq<u8>, int), PqErrorView>((v@, r.pos())),
        decreases k - i,
    {
        proof {
            if length_lengths(c, p, (i + 1) as nat) is Err {
                lemma_length_lengths_error(c, p, (i + 1) as nat, k as nat);
            }
            lemma2_to64();
        }
        let x: usize = read_field(r, 3)?;
        v.set(length_slot(i), x as u8);
        i += 1;
    }
    Ok(v)
}

fn read_lengths(r: &mut BitReader<'_>, code: &Code, total: usize, Ghost(cl): Ghost<Seq<u8>>) -> (res:
    Result<Vec<u8>, PqError>)
    requires
        old(r).wf(),
        old(r).pos() <= 8 * old(r).c@.len(),
        code.of(cl),
        cl.len() == 19,
        total <= 320,
    ensures
        moved_on(final(r), old(r)),
        match (res, lengths_from(old(r).c@, cl, old(r).pos(), Seq::empty(), total as int)) {
            (Ok(v), Ok(w)) => v@ == w.0 && final(r).pos() == w.1 && v@.len() == total,
            (Err(x), Err(y)) => x@ == y,
            _ => false,
        },
{
    let ghost want = lengths_from(r.c@, cl, r.pos(), Seq::empty(), total as int);
    let mut have: Vec<u8> = Vec::new();
    while have.len() < total
        invariant
            moved_on(r, old(r)),
            code.of(cl),
            cl.len() == 19,
            have@.len() <= total <= 320,
            want == lengths_from(old(r).c@, cl, old(r).pos(), Seq::empty(), total as int),
            want == lengths_from(r.c@, cl, r.pos(), have@, total as int),
        decreases 8 * r.c@.len() - r.pos(),
    {
        let sym: usize = read_symbol(r, code, Ghost(cl))?;
        if sym < 16 {
            have.push(sym as u8);
        } else {
            if sym == 16 && have.len() == 0 {
                return Err(bad("gzip: no code length to repeat"));
            }
            let width: u32 = if sym == 16 {
                2
            } else if sym == 17 {
                3
            } else {
                7
            };
            let base: usize = if sym == 18 {
                11
            } else {
                3
            };
            let v: u8 = if sym == 16 {
                have[have.len() - 1]
            } else {
                0
            };
            let more: usize = read_field(r, width)?;
            if base + more > total - have.len() {
                return Err(bad("gzip: too many code lengths"));
            }
            push_copies(v, base + more, &mut have);
        }
    }
    Ok(have)
}

fn read_dynamic_lengths(r: &mut BitReader<'_>) -> (res: Result<(Vec<u8>, Vec<u8>), PqError>)
    requires
        old(r).wf(),
        old(r).pos() <= 8 * old(r).c@.len(),
    ensures
        moved_on(final(r), old(r)),
        match (res, dynamic_lengths(old(r).c@, old(r).pos())) {
            (Ok(v), Ok(w)) => v.0@ == w.0 && v.1@ == w.1 && final(r).pos() == w.2 && v.0@.len()
                <= 286 && v.1@.len() <= 30,
            (Err(x), Err(y)) => x@ == y,
            _ => false,
        },
{
    if !r.has(14) {
        return Err(deflate_truncated());
    }
    proof {
        lemma2_to64();
        lemma_bits_bound(r.c@, r.pos() + 10, 4);
    }
    let nlit: usize = read_field(r, 5)? + 257;
    let ndist: usize = read_field(r, 5)? + 1;
    let ncode: usize = read_field(r, 4)? + 4;
    if nlit > 286 || ndist > 30 {
        return Err(bad("gzip: too many symbols"));
    }
    let code_lengths = read_length_lengths(r, ncode)?;
    let code = build_code(code_lengths.as_slice());
    let mut all = read_lengths(r, &code, nlit + ndist, Ghost(code_lengths@))?;
    if all[256] == 0 {
        return Err(bad("gzip: no end-of-block code"));
    }
    let ghost whole = all@;
    let dists = all.split_off(nlit);
    assert(all@ =~= whole.take(nlit as int));
    assert(dists@ =~= whole.skip(nlit as int));
    Ok((all, dists))
}

fn inflate_content(r: &mut BitReader<'_>, kind: usize, n: usize, out: &mut Vec<u8>) -> (res: Result<
    (),
    PqError,
>)
    requires
        old(r).wf(),
        old(r).pos() <= 8 * old(r).c@.len(),
        old(out)@.len() <= n <= GZIP_MAX_DECOMP,
    ensures
        moved_on(final(r), old(r)),
        yields_to(
            res,
            final(out)@,
            final(r).pos(),
            block_content(old(r).c@, kind as int, old(r).pos(), old(out)@, n as nat),
        ),
        final(out)@.len() <= n,
{
    if kind == 0 {
        inflate_stored(r, n, out)
    } else if kind == 1 {
        let ll = fixed_lit_lengths();
        let mut dl: Vec<u8> = Vec::new();
        push_copies(5, 30, &mut dl);
        assert(dl@ =~= fixed_dists());
        let lits = build_code(ll.as_slice());
        let dists = build_code(dl.as_slice());
        inflate_codes(r, &lits, &dists, n, out, Ghost(ll@), Ghost(dl@))
    } else if kind == 2 {
        let (ll, dl) = read_dynamic_lengths(r)?;
        let lits = build_code(ll.as_slice());
        let dists = build_code(dl.as_slice());
        inflate_codes(r, &lits, &dists, n, out, Ghost(ll@), Ghost(dl@))
    } else {
        Err(bad("gzip: invalid block type"))
    }
}

/// Decodes the DEFLATE stream at the start of `c`, and returns the output and the position behind
/// the last byte it uses.
fn inflate(c: &[u8], n: usize) -> (res: Result<(Vec<u8>, usize), PqError>)
    requires
        n <= GZIP_MAX_DECOMP,
    ensures
        match (res, blocks_output(c@, 0, Seq::empty(), n as nat)) {
            (Ok(v), Ok(w)) => v.0@ == w.0 && v.1 == (w.1 + 7) / 8 && v.1 <= c@.len() && v.0@.len()
                <= n,
            (Err(x), Err(y)) => x@ == y,
            _ => false,
        },
{
    let mut out: Vec<u8> = Vec::new();
    let mut r = BitReader { c, byte: 0, shift: 0 };
    loop
        invariant
            n <= GZIP_MAX_DECOMP,
            r.wf(),
            r.c@ == c@,
            r.pos() <= 8 * c@.len(),
            out@.len() <= n,
            blocks_output(c@, 0, Seq::empty(), n as nat) == blocks_output(
                c@,
                r.pos(),
                out@,
                n as nat,
            ),
        decreases 8 * c@.len() - r.pos(),
    {
        if !r.has(3) {
            return Err(deflate_truncated());
        }
        let last: u32 = match r.bit() {
            Some(b) => b,
            None => return Err(deflate_truncated()),
        };
        let kind: usize = read_field(&mut r, 2)?;
        inflate_content(&mut r, kind, n, &mut out)?;
        if last == 1 {
            r.align();
            return Ok((out, r.byte));
        }
    }
}

/// The CRC-32 of some bytes.
fn checksum(s: &[u8]) -> (r: u32)
    ensures
        r == crc32(s@),
{
    let mut c: u32 = 0xffff_ffff;
    let mut i: usize = 0;
    assert(s@.take(0) =~= Seq::<u8>::empty());
    while i < s.len()
        invariant
            i <= s@.len(),
            c == crc_register(s@.take(i as int)),
        decreases s@.len() - i,
    {
        let x: u32 = s[i] as u32;
        assert(s@.take(i + 1).drop_last() =~= s@.take(i as int));
        let start: u32 = c ^ x;
        c = start;
        let mut k: u8 = 0;
        while k < 8
            invariant
                k <= 8,
                c == crc_bits(start, k as nat),
            decreases 8 - k,
        {
            c = if c % 2 == 1 {
                (c / 2) ^ 0xedb8_8320u32
            } else {
                c / 2
            };
            k += 1;
        }
        i += 1;
    }
    assert(s@.take(i as int) =~= s@);
    c ^ 0xffff_ffff
}

fn find_zero(s: &[u8], p: usize) -> (r: Option<usize>)
    requires
        p <= s@.len(),
    ensures
        match (r, after_zero(s@, p as int)) {
            (Some(v), Some(w)) => v == w && v <= s@.len(),
            (None, None) => true,
            _ => false,
        },
{
    let mut i: usize = p;
    while i < s.len()
        invariant
            p <= i <= s@.len(),
            after_zero(s@, p as int) == after_zero(s@, i as int),
        decreases s@.len() - i,
    {
        if s[i] == 0 {
            return Some(i + 1);
        }
        i += 1;
    }
    None
}

fn skip_text(s: &[u8], there: bool, p: usize) -> (r: Result<usize, PqError>)
    requires
        p <= s@.len(),
    ensures
        match (r, after_text(s@, there, p as int)) {
            (Ok(v), Ok(w)) => v == w && v <= s@.len(),
            (Err(x), Err(y)) => x@ == y,
            _ => false,
        },
{
    if !there {
        return Ok(p);
    }
    match find_zero(s, p) {
        Some(e) => Ok(e),
        None => Err(bad("gzip: header truncated")),
    }
}

fn read_header(s: &[u8]) -> (r: Result<usize, PqError>)
    ensures
        match (r, content_start(s@)) {
            (Ok(v), Ok(w)) => v == w && v <= s@.len(),
            (Err(x), Err(y)) => x@ == y,
            _ => false,
        },
{
    if s.len() < 10 {
        return Err(bad("gzip: header truncated"));
    }
    if s[0] != 0x1f || s[1] != 0x8b {
        return Err(bad("gzip: bad magic"));
    }
    if s[2] != 8 {
        return Err(bad("gzip: compression method is not deflate"));
    }
    let flags: u8 = s[3];
    if flags >= 32 {
        return Err(bad("gzip: reserved flags set"));
    }
    let mut p: usize = 10;
    if (flags / 4) % 2 == 1 {
        if s.len() - p < 2 {
            return Err(bad("gzip: header truncated"));
        }
        let n: usize = le_u16(s, p) as usize;
        p = p + 2;
        if n > s.len() - p {
            return Err(bad("gzip: header truncated"));
        }
        p = p + n;
    }
    p = skip_text(s, (flags / 8) % 2 == 1, p)?;
    p = skip_text(s, (flags / 16) % 2 == 1, p)?;
    if (flags / 2) % 2 == 1 {
        if s.len() - p < 2 {
            return Err(bad("gzip: header truncated"));
        }
        p = p + 2;
    }
    Ok(p)
}

/// Decompresses a member whose output is to be of `expected_len` bytes.
pub fn decompress(src: &[u8], expected_len: usize) -> (r: Result<Vec<u8>, PqError>)
    ensures
        yields(r, member_output(src@, expected_len as nat)),
        r matches Ok(v) ==> v@.len() == expected_len,
{
    if expected_len > GZIP_MAX_DECOMP {
        return Err(
            PqError::Unsupported(
                text5(
                    "gzip page ",
                    decimal_text(expected_len as i128).as_str(),
                    " exceeds ",
                    decimal_text(GZIP_MAX_DECOMP as i128).as_str(),
                    " cap: OBJ-2c",
                ),
            ),
        );
    }
    let start: usize = read_header(src)?;
    let c = slice_subrange(src, start, src.len());
    assert(c@ =~= src@.skip(start as int));
    let (out, e) = inflate(c, expected_len)?;
    if c.len() - e < 8 {
        return Err(bad("gzip: trailer truncated"));
    }
    if c.len() - e != 8 {
        return Err(bad("gzip: bytes behind the member"));
    }
    if le_u32(c, e) != checksum(out.as_slice()) {
        return Err(bad("gzip: CRC-32 mismatch"));
    }
    if le_u32(c, e + 4) as usize != out.len() {
        return Err(bad("gzip: length mismatch"));
    }
    if out.len() != expected_len {
        return Err(bad("gzip: output length != uncompressed_page_size"));
    }
    Ok(out)
}

} // verus!
