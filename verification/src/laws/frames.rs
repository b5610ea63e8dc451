//! Zstandard frames and gzip members.
use vstd::arithmetic::power2::{lemma2_to64, pow2};
use vstd::prelude::*;

use crate::bytes::{bit_at, bits_at, le};
use crate::error::PqErrorView;
use crate::gzip;
use crate::laws::blocks::{lemma_inside, lemma_skip};
use crate::laws::numbers::{law_le, le_form};
use crate::lz::{copied, lemma_copied};
use crate::zstd::{
    block_at, block_header_at, blocks_from, compressed_block, first_state, frame_header_at,
    frame_output, number_at, BlockHeader, BlockType, FrameHeader, StateView, ZstdErrorView,
    BLOCK_MAX_SIZE, ZSTD_MAGIC, ZSTD_MAX_DECOMP,
};
use crate::zstd_seqexec::{executed, RepeatOffsets};
use crate::zstd_sequences::Sequence;

verus! {

/// A block that is not compressed.
pub enum Block {
    /// Bytes as they are.
    Raw(Seq<u8>),
    /// A byte so many times.
    Rle { byte: u8, count: nat },
}

/// What a block stands for.
pub open spec fn block_content(b: Block) -> Seq<u8> {
    match b {
        Block::Raw(s) => s,
        Block::Rle { byte, count } => Seq::new(count, |i: int| byte),
    }
}

/// What blocks stand for.
pub open spec fn blocks_content(s: Seq<Block>) -> Seq<u8>
    decreases s.len(),
{
    if s.len() == 0 {
        seq![]
    } else {
        block_content(s[0]) + blocks_content(s.drop_first())
    }
}

/// A block in a frame: its header in three bytes, then its bytes or the byte.
pub open spec fn block_form(b: Block, last: bool) -> Seq<u8> {
    let flag = if last {
        1nat
    } else {
        0
    };
    match b {
        Block::Raw(s) => le_form(flag + 8 * s.len(), 3) + s,
        Block::Rle { byte, count } => le_form(flag + 2 + 8 * count, 3) + seq![byte],
    }
}

/// Blocks in a frame, the last marked so.
pub open spec fn blocks_form(s: Seq<Block>) -> Seq<u8>
    decreases s.len(),
{
    if s.len() == 0 {
        seq![]
    } else {
        block_form(s[0], s.len() == 1) + blocks_form(s.drop_first())
    }
}

/// A frame of a single segment that says its size in eight bytes and has no checksum.
pub open spec fn frame_form(s: Seq<Block>) -> Seq<u8> {
    ZSTD_MAGIC@ + seq![224u8] + le_form(blocks_content(s).len(), 8) + blocks_form(s)
}

/// The header of a block.
spec fn header_of(b: Block, last: bool) -> BlockHeader {
    match b {
        Block::Raw(s) => BlockHeader {
            last_block: last,
            block_type: BlockType::Raw,
            block_size: s.len() as usize,
        },
        Block::Rle { byte, count } => BlockHeader {
            last_block: last,
            block_type: BlockType::Rle,
            block_size: count as usize,
        },
    }
}

proof fn lemma_header(d: Seq<u8>, p: int, b: Block, last: bool, rest: Seq<u8>)
    requires
        0 <= p <= d.len(),
        d.skip(p) == block_form(b, last) + rest,
        block_content(b).len() <= BLOCK_MAX_SIZE,
    ensures
        block_header_at(d, p) == Ok::<(BlockHeader, int), ZstdErrorView>(
            (header_of(b, last), p + 3),
        ),
        p + 3 <= d.len(),
{
    let f = block_form(b, last);
    let flag = if last {
        1nat
    } else {
        0
    };
    let h = match b {
        Block::Raw(s) => flag + 8 * s.len(),
        Block::Rle { byte, count } => flag + 2 + 8 * count,
    };
    lemma_skip(d, p, f, rest);
    law_le(h, 3);
    crate::bytes::lemma_pow256_values();
    assert(f.subrange(0, 3) =~= le_form(h, 3));
    lemma_inside(d, p, f, 0, 3);
    assert(number_at(d, p, 3) == Ok::<(nat, int), ZstdErrorView>((h, p + 3)));
}

#[verifier::rlimit(30)]
proof fn lemma_block(
    d: Seq<u8>,
    p: int,
    b: Block,
    last: bool,
    rest: Seq<u8>,
    st: StateView,
    out: Seq<u8>,
)
    requires
        0 <= p <= d.len(),
        d.skip(p) == block_form(b, last) + rest,
        block_content(b).len() <= BLOCK_MAX_SIZE,
        out.len() + block_content(b).len() <= ZSTD_MAX_DECOMP,
    ensures
        block_at(d, p + 3, header_of(b, last), st, out) == Ok::<
            (StateView, Seq<u8>, int),
            ZstdErrorView,
        >((st, out + block_content(b), p + block_form(b, last).len())),
        d.skip(p + block_form(b, last).len()) == rest,
        p + block_form(b, last).len() + rest.len() == d.len(),
{
    reveal(block_at);
    let f = block_form(b, last);
    lemma_skip(d, p, f, rest);
    match b {
        Block::Raw(s) => {
            let flag = if last {
                1nat
            } else {
                0
            };
            law_le(flag + 8 * s.len(), 3);
            lemma_inside(d, p, f, 3, f.len() as int);
            assert(f.subrange(3, f.len() as int) =~= s);
        },
        Block::Rle { byte, count } => {
            let flag = if last {
                1nat
            } else {
                0
            };
            law_le(flag + 2 + 8 * count, 3);
            assert(d[p + 3] == d.subrange(p, p + f.len())[3]);
            assert(Seq::new(count, |i: int| d[p + 3]) =~= block_content(b));
        },
    }
}

proof fn lemma_blocks(d: Seq<u8>, p: int, s: Seq<Block>, st: StateView, out: Seq<u8>)
    requires
        0 <= p <= d.len(),
        s.len() > 0,
        d.skip(p) == blocks_form(s),
        forall|i: int|
            0 <= i < s.len() ==> block_content(#[trigger] s[i]).len() <= BLOCK_MAX_SIZE,
        out.len() + blocks_content(s).len() <= ZSTD_MAX_DECOMP,
    ensures
        blocks_from(d, p, st, out) == Ok::<(Seq<u8>, int), ZstdErrorView>(
            (out + blocks_content(s), d.len() as int),
        ),
    decreases s.len(),
{
    let b = s[0];
    let rest = s.drop_first();
    let last = s.len() == 1;
    lemma_header(d, p, b, last, blocks_form(rest));
    lemma_block(d, p, b, last, blocks_form(rest), st, out);
    let out2 = out + block_content(b);
    if last {
        assert(out + blocks_content(s) =~= out2);
    } else {
        assert forall|i: int| 0 <= i < rest.len() implies block_content(#[trigger] rest[i]).len()
            <= BLOCK_MAX_SIZE by {
            assert(rest[i] == s[i + 1]);
        }
        lemma_blocks(d, p + block_form(b, last).len(), rest, st, out2);
        assert(out + blocks_content(s) =~= out2 + blocks_content(rest));
    }
}

/// A frame of blocks that are not compressed gives back what was written.
pub proof fn law_zstd(s: Seq<Block>)
    requires
        s.len() > 0,
        forall|i: int|
            0 <= i < s.len() ==> block_content(#[trigger] s[i]).len() <= BLOCK_MAX_SIZE,
        blocks_content(s).len() <= ZSTD_MAX_DECOMP,
    ensures
        frame_output(frame_form(s)) == Ok::<Seq<u8>, ZstdErrorView>(blocks_content(s)),
{
    let n = blocks_content(s).len();
    let d = frame_form(s);
    let size = le_form(n, 8);
    law_le(n, 8);
    crate::bytes::lemma_pow256_values();
    assert(d.take(4) =~= ZSTD_MAGIC@);
    assert(d[4] == 224);
    assert(d.subrange(5, 13) =~= size);
    assert(le(d.subrange(5, 13)) == n);
    assert(number_at(d, 5, 8) == Ok::<(nat, int), ZstdErrorView>((n, 13)));
    assert(frame_header_at(d, 4) == Ok::<(FrameHeader, int), ZstdErrorView>(
        (
            FrameHeader {
                frame_content_size: Some(n as u64),
                single_segment: true,
                content_checksum: false,
                window_size: n as u64,
            },
            13,
        ),
    ));
    assert(d.skip(13) =~= blocks_form(s));
    lemma_blocks(d, 13, s, first_state(), seq![]);
    assert(Seq::<u8>::empty() + blocks_content(s) =~= blocks_content(s));
}

proof fn lemma_executed_cap(
    seqs: Seq<Sequence>,
    i: int,
    literals: Seq<u8>,
    at: int,
    rep: RepeatOffsets,
    out: Seq<u8>,
    cap: usize,
)
    requires
        0 <= i,
        0 <= at <= literals.len(),
        out.len() <= cap,
    ensures
        executed(seqs, i, literals, at, rep, out, cap) matches Ok((o, _)) ==> o.len() <= cap,
    decreases seqs.len() - i,
{
    if i < seqs.len() {
        let q = seqs[i];
        let end = at + q.literal_length;
        let (offset, next) = crate::zstd_seqexec::offset_of(rep, q.offset, q.literal_length);
        if end <= literals.len() && out.len() + q.literal_length + q.match_length <= cap && offset
            != 0 && offset <= out.len() + q.literal_length {
            let o = out + literals.subrange(at, end);
            lemma_copied(o, offset as int, q.match_length as nat);
            lemma_executed_cap(
                seqs,
                i + 1,
                literals,
                end,
                next,
                copied(o, offset as int, q.match_length as nat),
                cap,
            );
        }
    }
}

proof fn lemma_blocks_cap(d: Seq<u8>, p: int, st: StateView, out: Seq<u8>)
    requires
        out.len() <= ZSTD_MAX_DECOMP,
    ensures
        blocks_from(d, p, st, out) matches Ok((o, _)) ==> o.len() <= ZSTD_MAX_DECOMP,
    decreases d.len() - p,
{
    reveal(block_at);
    match block_header_at(d, p) {
        Ok((h, q)) => {
            if h.block_type == BlockType::Compressed && q + h.block_size <= d.len() {
                lemma_compressed_cap(d.subrange(q, q + h.block_size), st, out);
            }
            match block_at(d, q, h, st, out) {
                Ok((s, o, end)) => {
                    if !h.last_block {
                        lemma_blocks_cap(d, end, s, o);
                    }
                },
                Err(_) => {},
            }
        },
        Err(_) => {},
    }
}

proof fn lemma_compressed_cap(b: Seq<u8>, st: StateView, out: Seq<u8>)
    requires
        out.len() <= ZSTD_MAX_DECOMP,
    ensures
        compressed_block(b, st, out) matches Ok((_, o)) ==> o.len() <= ZSTD_MAX_DECOMP,
{
    match crate::zstd::literals_of(b, st.tree) {
        Ok((literals, n, tree)) => {
            let rest = b.skip(n);
            match crate::zstd_sequences::sequences_header(rest) {
                Ok(h) => {
                    let body = rest.skip(h.header_len as int);
                    match crate::zstd::tables_at(body, h, st) {
                        Ok((t, k)) => {
                            match crate::zstd_sequences::stream_sequences(
                                t,
                                body.skip(k),
                                h.num_sequences as nat,
                            ) {
                                Ok(seqs) => {
                                    lemma_executed_cap(
                                        seqs,
                                        0,
                                        literals,
                                        0,
                                        st.repeats,
                                        out,
                                        ZSTD_MAX_DECOMP,
                                    );
                                },
                                Err(_) => {},
                            }
                        },
                        Err(_) => {},
                    }
                },
                Err(_) => {},
            }
        },
        Err(_) => {},
    }
}

/// Whatever a frame decompresses to is within the cap, and of the size that the frame says.
pub proof fn law_zstd_cap(b: Seq<u8>)
    ensures
        frame_output(b) matches Ok(v) ==> v.len() <= ZSTD_MAX_DECOMP && (
        frame_header_at(b, 4)->Ok_0.0.frame_content_size matches Some(n) ==> v.len() == n),
{
    match frame_header_at(b, 4) {
        Ok((h, p)) => {
            lemma_blocks_cap(b, p, first_state(), seq![]);
        },
        Err(_) => {},
    }
}

/// What parts come to together.
pub open spec fn parts_content(s: Seq<Seq<u8>>) -> Seq<u8>
    decreases s.len(),
{
    if s.len() == 0 {
        seq![]
    } else {
        s[0] + parts_content(s.drop_first())
    }
}

/// A stored block of a gzip member: whether it is the last, its length twice, then its bytes.
pub open spec fn stored_form(b: Seq<u8>, last: bool) -> Seq<u8> {
    seq![
        if last {
            1u8
        } else {
            0u8
        },
    ] + le_form(b.len(), 2) + le_form((0xffff - b.len()) as nat, 2) + b
}

/// Stored blocks of a gzip member, the last marked so.
pub open spec fn stored_blocks_form(s: Seq<Seq<u8>>) -> Seq<u8>
    decreases s.len(),
{
    if s.len() == 0 {
        seq![]
    } else {
        stored_form(s[0], s.len() == 1) + stored_blocks_form(s.drop_first())
    }
}

/// The end of a gzip member: the checksum and the length of what it holds.
pub open spec fn trailer_form(out: Seq<u8>) -> Seq<u8> {
    le_form(gzip::crc32(out) as nat, 4) + le_form(out.len(), 4)
}

/// A gzip member of stored blocks, without a name or any other optional field.
pub open spec fn member_form(s: Seq<Seq<u8>>) -> Seq<u8> {
    seq![0x1fu8, 0x8b, 8, 0, 0, 0, 0, 0, 0, 0xff] + (stored_blocks_form(s) + trailer_form(
        parts_content(s),
    ))
}

/// The first three bits of a byte that is 0 or 1.
proof fn lemma_low_bits(c: Seq<u8>, q: int)
    requires
        0 <= q < c.len(),
        c[q] == 0 || c[q] == 1,
    ensures
        bit_at(c, 8 * q) == c[q],
        bits_at(c, 8 * q + 1, 2) == 0,
{
    lemma2_to64();
    assert((8 * q) / 8 == q && (8 * q + 1) / 8 == q && (8 * q + 2) / 8 == q);
    assert((8 * q) % 8 == 0 && (8 * q + 1) % 8 == 1 && (8 * q + 2) % 8 == 2);
    assert(bit_at(c, 8 * q + 1) == 0);
    assert(bit_at(c, 8 * q + 2) == 0);
    assert(bits_at(c, 8 * q + 1, 0) == 0);
    assert(bits_at(c, 8 * q + 1, 1) == bits_at(c, 8 * q + 1, 0) + bit_at(c, 8 * q + 1) * pow2(0));
    assert(bits_at(c, 8 * q + 1, 2) == bits_at(c, 8 * q + 1, 1) + bit_at(c, 8 * q + 2) * pow2(1));
}

proof fn lemma_stored(c: Seq<u8>, q: int, b: Seq<u8>, last: bool, rest: Seq<u8>, out: Seq<u8>, n: nat)
    requires
        0 <= q <= c.len(),
        c.skip(q) == stored_form(b, last) + rest,
        b.len() <= 0xffff,
        out.len() + b.len() <= n,
    ensures
        8 * q + 3 <= 8 * c.len(),
        bit_at(c, 8 * q) == 1 <==> last,
        bits_at(c, 8 * q + 1, 2) == 0,
        gzip::stored_output(c, 8 * q + 3, out, n) == Ok::<(Seq<u8>, int), PqErrorView>(
            (out + b, 8 * (q + stored_form(b, last).len())),
        ),
        c.skip(q + stored_form(b, last).len()) == rest,
        q + stored_form(b, last).len() + rest.len() == c.len(),
        stored_form(b, last).len() == 5 + b.len(),
{
    let f = stored_form(b, last);
    let l = le_form(b.len(), 2);
    let m = le_form((0xffff - b.len()) as nat, 2);
    law_le(b.len(), 2);
    law_le((0xffff - b.len()) as nat, 2);
    crate::bytes::lemma_pow256_values();
    lemma2_to64();
    lemma_skip(c, q, f, rest);
    assert(c[q] == c.subrange(q, q + f.len())[0]);
    lemma_low_bits(c, q);
    assert((8 * q + 3 + 7) / 8 == q + 1);
    assert(f.subrange(1, 3) =~= l);
    assert(f.subrange(3, 5) =~= m);
    assert(f.subrange(5, f.len() as int) =~= b);
    lemma_inside(c, q, f, 1, 3);
    lemma_inside(c, q, f, 3, 5);
    lemma_inside(c, q, f, 5, f.len() as int);
}

proof fn lemma_stored_blocks(c: Seq<u8>, q: int, s: Seq<Seq<u8>>, rest: Seq<u8>, out: Seq<u8>, n: nat)
    requires
        0 <= q <= c.len(),
        s.len() > 0,
        c.skip(q) == stored_blocks_form(s) + rest,
        forall|i: int| 0 <= i < s.len() ==> (#[trigger] s[i]).len() <= 0xffff,
        out.len() + parts_content(s).len() <= n,
    ensures
        gzip::blocks_output(c, 8 * q, out, n) == Ok::<(Seq<u8>, int), PqErrorView>(
            (out + parts_content(s), 8 * (q + stored_blocks_form(s).len())),
        ),
        c.skip(q + stored_blocks_form(s).len()) == rest,
        q + stored_blocks_form(s).len() + rest.len() == c.len(),
    decreases s.len(),
{
    let b = s[0];
    let tail = s.drop_first();
    let last = s.len() == 1;
    let f = stored_form(b, last);
    let more = stored_blocks_form(tail);
    assert(stored_blocks_form(s) + rest =~= f + (more + rest));
    lemma_stored(c, q, b, last, more + rest, out, n);
    assert(gzip::block_content(c, 0, 8 * q + 3, out, n) == gzip::stored_output(
        c,
        8 * q + 3,
        out,
        n,
    ));
    let out2 = out + b;
    lemma_skip(c, q, stored_blocks_form(s), rest);
    if last {
        assert(more =~= seq![]);
        assert(out + parts_content(s) =~= out2);
    } else {
        assert forall|i: int| 0 <= i < tail.len() implies (#[trigger] tail[i]).len() <= 0xffff by {
            assert(tail[i] == s[i + 1]);
        }
        lemma_stored_blocks(c, q + f.len(), tail, rest, out2, n);
        assert(out + parts_content(s) =~= out2 + parts_content(tail));
    }
}

/// A gzip member of stored blocks gives back what was written.
pub proof fn law_gzip(s: Seq<Seq<u8>>)
    requires
        s.len() > 0,
        forall|i: int| 0 <= i < s.len() ==> (#[trigger] s[i]).len() <= 0xffff,
        parts_content(s).len() <= gzip::GZIP_MAX_DECOMP,
    ensures
        gzip::member_output(member_form(s), parts_content(s).len()) == Ok::<
            Seq<u8>,
            PqErrorView,
        >(parts_content(s)),
{
    let out = parts_content(s);
    let n = out.len();
    let d = member_form(s);
    let t = trailer_form(out);
    assert(d[0] == 0x1f && d[1] == 0x8b && d[2] == 8 && d[3] == 0);
    assert(gzip::content_start(d) == Ok::<int, PqErrorView>(10));
    let c = d.skip(10);
    assert(c =~= stored_blocks_form(s) + t);
    assert(c.skip(0) =~= c);
    lemma_stored_blocks(c, 0, s, t, seq![], n);
    assert(Seq::<u8>::empty() + out =~= out);
    let e = stored_blocks_form(s).len() as int;
    assert((8 * e + 7) / 8 == e);
    lemma_trailer(c, e, out);
}

/// Whatever a gzip member decompresses to is of the length asked for, and within the cap.
pub proof fn law_gzip_len(s: Seq<u8>, n: nat)
    ensures
        gzip::member_output(s, n) matches Ok(v) ==> v.len() == n && n <= gzip::GZIP_MAX_DECOMP,
{
}

proof fn lemma_trailer(c: Seq<u8>, e: int, out: Seq<u8>)
    requires
        0 <= e <= c.len(),
        c.skip(e) == trailer_form(out),
        out.len() <= u32::MAX,
    ensures
        c.len() == e + 8,
        le(c.subrange(e, e + 4)) == gzip::crc32(out),
        le(c.subrange(e + 4, e + 8)) == out.len(),
{
    let t = trailer_form(out);
    let crc = gzip::crc32(out) as nat;
    law_le(crc, 4);
    law_le(out.len(), 4);
    crate::bytes::lemma_pow256_values();
    assert(t.subrange(0, 4) =~= le_form(crc, 4));
    assert(t.subrange(4, 8) =~= le_form(out.len(), 4));
    assert(c.skip(e) == t + seq![]) by {
        assert(t + seq![] =~= t);
    }
    lemma_skip(c, e, t, seq![]);
    lemma_inside(c, e, t, 0, 4);
    lemma_inside(c, e, t, 4, 8);
}

} // verus!
