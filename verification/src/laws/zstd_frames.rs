//! Zstandard frames of any blocks, behind any header: what was written is read back.
use vstd::arithmetic::div_mod::lemma_small_mod;
use vstd::arithmetic::power2::lemma2_to64;
use vstd::prelude::*;

use crate::bytes::{lemma_pow256_values, pow256};
use crate::laws::back_streams::back_form;
use crate::laws::blocks::lemma_skip;
use crate::laws::descriptions::{describable, description_form, law_description};
use crate::laws::fse_tables::{all_used, law_fse_spread, rare, shares_fill};
use crate::laws::literals::{
    law_literals, literals_content, literals_form, literals_ok, tree_after, Literals,
};
use crate::laws::numbers::{law_le, le_form};
use crate::laws::sequences::{
    can_carry_out, carried_out, law_executed, law_sequences, law_sequences_header, offsets_after,
    sequences_header_form, sequences_stream, states_ok,
};
use crate::zstd::{
    block_at, block_header_at, blocks_from, compressed_block, content_size_at, first_state,
    frame_header_at, frame_output, number_at, tables_at, BlockHeader, BlockType, StateView,
    ZstdErrorView, ZSTD_MAX_DECOMP,
};
use crate::zstd_fse::{table_of, FseEntry, FseTableView};
use crate::zstd_seqexec::{executed, RepeatOffsets};
use crate::zstd_sequences::{
    predefined, sequences_header, stream_sequences, table_for_mode, SeqSymbolClass, SeqSymbolMode,
    Sequence, SequencesHeader, States, Tables,
};

verus! {

/// Where the table for one kind of symbol comes from.
pub enum TableSource {
    /// The format fixes it.
    Predefined,
    /// One symbol for all.
    Rle(u8),
    /// Its accuracy log and its shares are written here.
    Described { log: nat, shares: Seq<i16> },
    /// It is that of an earlier block.
    Repeat,
}

/// The mode of a source.
pub open spec fn source_mode(s: TableSource) -> SeqSymbolMode {
    match s {
        TableSource::Predefined => SeqSymbolMode::Predefined,
        TableSource::Rle(_) => SeqSymbolMode::Rle,
        TableSource::Described { .. } => SeqSymbolMode::FseCompressed,
        TableSource::Repeat => SeqSymbolMode::Repeat,
    }
}

/// The bytes of a source.
pub open spec fn source_form(s: TableSource) -> Seq<u8> {
    match s {
        TableSource::Predefined => seq![],
        TableSource::Rle(x) => seq![x],
        TableSource::Described { log, shares } => description_form(log, shares),
        TableSource::Repeat => seq![],
    }
}

/// The highest symbol of a kind, and the highest accuracy log of a table for it.
pub open spec fn limits(class: SeqSymbolClass) -> (int, int) {
    match class {
        SeqSymbolClass::LiteralLength => (35, 9),
        SeqSymbolClass::Offset => (31, 8),
        SeqSymbolClass::MatchLength => (52, 9),
    }
}

/// Whether the source gives a table.
pub open spec fn source_ok(
    class: SeqSymbolClass,
    s: TableSource,
    prev: Option<FseTableView>,
) -> bool {
    let (max_symbol, max_log) = limits(class);
    match s {
        TableSource::Predefined => true,
        TableSource::Rle(x) => x <= max_symbol,
        TableSource::Described { log, shares } => describable(log, shares, max_log, max_symbol)
            && shares_fill(log, shares),
        TableSource::Repeat => prev is Some,
    }
}

/// The table of a source.
pub open spec fn source_table(
    class: SeqSymbolClass,
    s: TableSource,
    prev: Option<FseTableView>,
) -> FseTableView {
    match s {
        TableSource::Predefined => table_of(predefined(class).0, predefined(class).1)->Ok_0,
        TableSource::Rle(x) => FseTableView {
            accuracy_log: 0,
            entries: seq![FseEntry { symbol: x, nb_bits: 0, base_state: 0 }],
        },
        TableSource::Described { log, shares } => table_of(log as int, shares)->Ok_0,
        TableSource::Repeat => prev->Some_0,
    }
}

/// A table is read from its source, whatever follows it.
pub proof fn law_table_source(
    class: SeqSymbolClass,
    s: TableSource,
    prev: Option<FseTableView>,
    after: Seq<u8>,
)
    requires
        source_ok(class, s, prev),
    ensures
        table_for_mode(class, source_mode(s), source_form(s) + after, prev) == Ok::<
            (FseTableView, int),
            ZstdErrorView,
        >((source_table(class, s, prev), source_form(s).len() as int)),
{
    let (max_symbol, max_log) = limits(class);
    match s {
        TableSource::Described { log, shares } => {
            law_description(log, shares, max_log, max_symbol, after);
            law_fse_spread(log, shares);
        },
        TableSource::Predefined => {
            law_predefined_tables(class);
            assert(source_form(s) + after =~= after);
        },
        _ => {},
    }
}

/// The sequences of a block: where its tables come from, and a way through them.
pub struct Coding {
    pub ll: TableSource,
    pub of: TableSource,
    pub ml: TableSource,
    pub states: Seq<States>,
    pub sequences: Seq<Sequence>,
}

/// A block of a frame.
pub enum ZBlock {
    /// Bytes as they are.
    Raw(Seq<u8>),
    /// A byte so many times.
    Rle { byte: u8, count: nat },
    /// Literals alone.
    Literals(Literals),
    /// Literals, and sequences that put them among copies.
    Sequences(Literals, Coding),
}

/// The tables of a block.
pub open spec fn coding_tables(c: Coding, st: StateView) -> Tables {
    Tables {
        ll: source_table(SeqSymbolClass::LiteralLength, c.ll, st.ll),
        of: source_table(SeqSymbolClass::Offset, c.of, st.of),
        ml: source_table(SeqSymbolClass::MatchLength, c.ml, st.ml),
    }
}

/// The sequences of a block: the header, the tables and the stream.
pub open spec fn coding_form(c: Coding, st: StateView) -> Seq<u8> {
    sequences_header_form(
        c.sequences.len(),
        source_mode(c.ll),
        source_mode(c.of),
        source_mode(c.ml),
    ) + (source_form(c.ll) + (source_form(c.of) + (source_form(c.ml) + back_form(
        sequences_stream(coding_tables(c, st), c.states, c.sequences),
    ))))
}

/// Whether the sequences can be written so.
pub open spec fn coding_ok(c: Coding, st: StateView) -> bool {
    &&& 0 < c.sequences.len() <= 0x17EFF
    &&& source_ok(SeqSymbolClass::LiteralLength, c.ll, st.ll)
    &&& source_ok(SeqSymbolClass::Offset, c.of, st.of)
    &&& source_ok(SeqSymbolClass::MatchLength, c.ml, st.ml)
    &&& states_ok(coding_tables(c, st), c.states, c.sequences)
}

/// What a block holds behind its header.
pub open spec fn zblock_body(b: ZBlock, st: StateView) -> Seq<u8> {
    match b {
        ZBlock::Raw(s) => s,
        ZBlock::Rle { byte, .. } => seq![byte],
        ZBlock::Literals(l) => literals_form(l) + seq![0u8],
        ZBlock::Sequences(l, c) => literals_form(l) + coding_form(c, st),
    }
}

/// The number that the header of a block is: whether it is the last, its type, and its size.
pub open spec fn zblock_header(b: ZBlock, st: StateView, last: bool) -> nat {
    let flag = if last {
        1nat
    } else {
        0
    };
    match b {
        ZBlock::Raw(s) => flag + 8 * s.len(),
        ZBlock::Rle { count, .. } => flag + 2 + 8 * count,
        _ => flag + 4 + 8 * zblock_body(b, st).len(),
    }
}

/// A block of a frame.
pub open spec fn zblock_form(b: ZBlock, st: StateView, last: bool) -> Seq<u8> {
    le_form(zblock_header(b, st, last), 3) + zblock_body(b, st)
}

/// The output after a block.
pub open spec fn zblock_output(b: ZBlock, st: StateView, out: Seq<u8>) -> Seq<u8> {
    match b {
        ZBlock::Raw(s) => out + s,
        ZBlock::Rle { byte, count } => out + Seq::new(count, |i: int| byte),
        ZBlock::Literals(l) => out + literals_content(l),
        ZBlock::Sequences(l, c) => carried_out(
            c.sequences,
            0,
            literals_content(l),
            0,
            st.repeats,
            out,
        ),
    }
}

/// What a block leaves for the next: the tree of its literals, its tables, and the last offsets.
pub open spec fn zblock_state(b: ZBlock, st: StateView) -> StateView {
    match b {
        ZBlock::Raw(_) => st,
        ZBlock::Rle { .. } => st,
        ZBlock::Literals(l) => StateView { tree: tree_after(l, st.tree), ..st },
        ZBlock::Sequences(l, c) => {
            let t = coding_tables(c, st);
            StateView {
                tree: tree_after(l, st.tree),
                ll: Some(t.ll),
                of: Some(t.of),
                ml: Some(t.ml),
                repeats: offsets_after(c.sequences, 0, st.repeats),
            }
        },
    }
}

/// Whether a block can be written so.
pub open spec fn zblock_ok(b: ZBlock, st: StateView, out: Seq<u8>) -> bool {
    &&& zblock_output(b, st, out).len() <= ZSTD_MAX_DECOMP
    &&& match b {
        ZBlock::Raw(s) => s.len() <= 0x2_0000,
        ZBlock::Rle { count, .. } => count <= 0x2_0000,
        ZBlock::Literals(l) => literals_ok(l, st.tree) && zblock_body(b, st).len() <= 0x2_0000,
        ZBlock::Sequences(l, c) => {
            &&& literals_ok(l, st.tree)
            &&& coding_ok(c, st)
            &&& can_carry_out(
                c.sequences,
                0,
                literals_content(l),
                0,
                st.repeats,
                out.len() as int,
            )
            &&& zblock_body(b, st).len() <= 0x2_0000
        },
    }
}

proof fn lemma_behind(a: Seq<u8>, b: Seq<u8>)
    ensures
        (a + b).skip(a.len() as int) == b,
{
    assert((a + b).skip(a.len() as int) =~= b);
}

proof fn lemma_tables(c: Coding, st: StateView, h: SequencesHeader)
    requires
        coding_ok(c, st),
        h.ll_mode == source_mode(c.ll),
        h.of_mode == source_mode(c.of),
        h.ml_mode == source_mode(c.ml),
    ensures
        ({
            let stream = back_form(
                sequences_stream(coding_tables(c, st), c.states, c.sequences),
            );
            let body = source_form(c.ll) + (source_form(c.of) + (source_form(c.ml) + stream));
            let k = source_form(c.ll).len() + source_form(c.of).len() + source_form(c.ml).len();
            &&& tables_at(body, h, st) == Ok::<(Tables, int), ZstdErrorView>(
                (coding_tables(c, st), k as int),
            )
            &&& body.skip(k as int) == stream
        }),
{
    let stream = back_form(sequences_stream(coding_tables(c, st), c.states, c.sequences));
    let a = source_form(c.ll);
    let b = source_form(c.of);
    let d = source_form(c.ml);
    law_table_source(SeqSymbolClass::LiteralLength, c.ll, st.ll, b + (d + stream));
    law_table_source(SeqSymbolClass::Offset, c.of, st.of, d + stream);
    law_table_source(SeqSymbolClass::MatchLength, c.ml, st.ml, stream);
    lemma_behind(a, b + (d + stream));
    lemma_behind(b, d + stream);
    let body = a + (b + (d + stream));
    assert(body.skip((a.len() + b.len() + d.len()) as int) =~= stream);
}

/// What stands behind the literals of a block with sequences.
proof fn lemma_coding(c: Coding, st: StateView, content: Seq<u8>, out: Seq<u8>)
    requires
        coding_ok(c, st),
        can_carry_out(c.sequences, 0, content, 0, st.repeats, out.len() as int),
        carried_out(c.sequences, 0, content, 0, st.repeats, out).len() <= ZSTD_MAX_DECOMP,
    ensures
        ({
            let rest = coding_form(c, st);
            let t = coding_tables(c, st);
            let r = sequences_header(rest);
            let h = r->Ok_0;
            let body = rest.skip(h.header_len as int);
            let k = tables_at(body, h, st)->Ok_0.1;
            &&& r is Ok
            &&& h.num_sequences == c.sequences.len()
            &&& tables_at(body, h, st) == Ok::<(Tables, int), ZstdErrorView>((t, k))
            &&& stream_sequences(t, body.skip(k), h.num_sequences as nat) == Ok::<
                Seq<Sequence>,
                ZstdErrorView,
            >(c.sequences)
            &&& executed(c.sequences, 0, content, 0, st.repeats, out, ZSTD_MAX_DECOMP) == Ok::<
                (Seq<u8>, RepeatOffsets),
                ZstdErrorView,
            >(
                (
                    carried_out(c.sequences, 0, content, 0, st.repeats, out),
                    offsets_after(c.sequences, 0, st.repeats),
                ),
            )
        }),
{
    let t = coding_tables(c, st);
    let stream = back_form(sequences_stream(t, c.states, c.sequences));
    let body = source_form(c.ll) + (source_form(c.of) + (source_form(c.ml) + stream));
    let n = c.sequences.len();
    let (x, y, z) = (source_mode(c.ll), source_mode(c.of), source_mode(c.ml));
    let head = sequences_header_form(n, x, y, z);
    law_sequences_header(n, x, y, z, body);
    lemma_behind(head, body);
    let h = sequences_header(coding_form(c, st))->Ok_0;
    lemma_tables(c, st, h);
    law_sequences(t, c.states, c.sequences);
    law_executed(c.sequences, 0, content, 0, st.repeats, out, ZSTD_MAX_DECOMP);
}

proof fn lemma_sequences_block(l: Literals, c: Coding, st: StateView, out: Seq<u8>)
    requires
        zblock_ok(ZBlock::Sequences(l, c), st, out),
    ensures
        compressed_block(literals_form(l) + coding_form(c, st), st, out) == Ok::<
            (StateView, Seq<u8>),
            ZstdErrorView,
        >(
            (
                zblock_state(ZBlock::Sequences(l, c), st),
                zblock_output(ZBlock::Sequences(l, c), st, out),
            ),
        ),
{
    let rest = coding_form(c, st);
    let f = literals_form(l);
    law_literals(l, st.tree, rest);
    lemma_behind(f, rest);
    lemma_coding(c, st, literals_content(l), out);
}

proof fn lemma_literals_block(l: Literals, st: StateView, out: Seq<u8>)
    requires
        zblock_ok(ZBlock::Literals(l), st, out),
    ensures
        compressed_block(literals_form(l) + seq![0u8], st, out) == Ok::<
            (StateView, Seq<u8>),
            ZstdErrorView,
        >(
            (
                zblock_state(ZBlock::Literals(l), st),
                zblock_output(ZBlock::Literals(l), st, out),
            ),
        ),
{
    law_literals(l, st.tree, seq![0u8]);
    lemma_behind(literals_form(l), seq![0u8]);
    let m = SeqSymbolMode::Predefined;
    law_sequences_header(0, m, m, m, seq![]);
    assert(sequences_header_form(0, m, m, m) + seq![] =~= seq![0u8]);
}

/// A compressed block puts its literals behind the output, among the copies that its sequences say.
pub proof fn law_compressed_block(b: ZBlock, st: StateView, out: Seq<u8>)
    requires
        b is Literals || b is Sequences,
        zblock_ok(b, st, out),
    ensures
        compressed_block(zblock_body(b, st), st, out) == Ok::<
            (StateView, Seq<u8>),
            ZstdErrorView,
        >((zblock_state(b, st), zblock_output(b, st, out))),
{
    match b {
        ZBlock::Literals(l) => lemma_literals_block(l, st, out),
        ZBlock::Sequences(l, c) => lemma_sequences_block(l, c, st, out),
        _ => {},
    }
}

/// The header of a block: whether it is the last, its type, and its size.
proof fn lemma_block_number(d: Seq<u8>, p: int, last: bool, kind: nat, size: nat, rest: Seq<u8>)
    requires
        0 <= p <= d.len(),
        kind < 3,
        size <= 0x2_0000,
        d.skip(p) == le_form(
            (if last {
                1nat
            } else {
                0
            }) + 2 * kind + 8 * size,
            3,
        ) + rest,
    ensures
        block_header_at(d, p) == Ok::<(BlockHeader, int), ZstdErrorView>(
            (
                BlockHeader {
                    last_block: last,
                    block_type: if kind == 0 {
                        BlockType::Raw
                    } else if kind == 1 {
                        BlockType::Rle
                    } else {
                        BlockType::Compressed
                    },
                    block_size: size as usize,
                },
                p + 3,
            ),
        ),
        d.skip(p + 3) == rest,
        p + 3 <= d.len(),
{
    let h = (if last {
        1nat
    } else {
        0
    }) + 2 * kind + 8 * size;
    let f = le_form(h, 3);
    law_le(h, 3);
    lemma_pow256_values();
    lemma_small_mod(h, pow256(3));
    lemma_skip(d, p, f, rest);
    assert(number_at(d, p, 3) == Ok::<(nat, int), ZstdErrorView>((h, p + 3)));
    assert(h / 8 == size && h / 2 % 4 == kind && (h % 2 == 1 <==> last));
}

proof fn lemma_zheader(
    d: Seq<u8>,
    p: int,
    b: ZBlock,
    st: StateView,
    last: bool,
    rest: Seq<u8>,
    out: Seq<u8>,
)
    requires
        0 <= p <= d.len(),
        d.skip(p) == zblock_form(b, st, last) + rest,
        zblock_ok(b, st, out),
    ensures
        block_header_at(d, p) == Ok::<(BlockHeader, int), ZstdErrorView>(
            (
                BlockHeader {
                    last_block: last,
                    block_type: match b {
                        ZBlock::Raw(_) => BlockType::Raw,
                        ZBlock::Rle { .. } => BlockType::Rle,
                        _ => BlockType::Compressed,
                    },
                    block_size: match b {
                        ZBlock::Rle { count, .. } => count as usize,
                        _ => zblock_body(b, st).len() as usize,
                    },
                },
                p + 3,
            ),
        ),
        d.skip(p + 3) == zblock_body(b, st) + rest,
        p + 3 <= d.len(),
{
    let f = le_form(zblock_header(b, st, last), 3);
    let body = zblock_body(b, st);
    assert(f + body + rest =~= f + (body + rest));
    match b {
        ZBlock::Raw(s) => lemma_block_number(d, p, last, 0, s.len(), body + rest),
        ZBlock::Rle { count, .. } => lemma_block_number(d, p, last, 1, count, body + rest),
        _ => lemma_block_number(d, p, last, 2, body.len(), body + rest),
    }
}

proof fn lemma_zblock(
    d: Seq<u8>,
    p: int,
    b: ZBlock,
    st: StateView,
    h: BlockHeader,
    rest: Seq<u8>,
    out: Seq<u8>,
)
    requires
        0 <= p <= d.len(),
        d.skip(p) == zblock_body(b, st) + rest,
        zblock_ok(b, st, out),
        h.block_type == (match b {
            ZBlock::Raw(_) => BlockType::Raw,
            ZBlock::Rle { .. } => BlockType::Rle,
            _ => BlockType::Compressed,
        }),
        h.block_size == (match b {
            ZBlock::Rle { count, .. } => count as usize,
            _ => zblock_body(b, st).len() as usize,
        }),
    ensures
        block_at(d, p, h, st, out) == Ok::<(StateView, Seq<u8>, int), ZstdErrorView>(
            (zblock_state(b, st), zblock_output(b, st, out), p + zblock_body(b, st).len()),
        ),
        d.skip(p + zblock_body(b, st).len()) == rest,
        p + zblock_body(b, st).len() + rest.len() == d.len(),
{
    reveal(block_at);
    let body = zblock_body(b, st);
    lemma_skip(d, p, body, rest);
    match b {
        ZBlock::Raw(s) => {},
        ZBlock::Rle { byte, count } => {
            assert(d[p] == d.subrange(p, p + 1)[0]);
            assert(Seq::new(count, |i: int| d[p]) =~= Seq::new(count, |i: int| byte));
        },
        _ => law_compressed_block(b, st, out),
    }
}

/// The blocks of a frame from `i` on, the last marked so.
pub open spec fn zblocks_form(s: Seq<ZBlock>, i: int, st: StateView) -> Seq<u8>
    decreases s.len() - i,
{
    if i >= s.len() {
        seq![]
    } else {
        zblock_form(s[i], st, i + 1 == s.len()) + zblocks_form(s, i + 1, zblock_state(s[i], st))
    }
}

/// The output after the blocks from `i` on.
pub open spec fn zblocks_output(s: Seq<ZBlock>, i: int, st: StateView, out: Seq<u8>) -> Seq<u8>
    decreases s.len() - i,
{
    if i >= s.len() {
        out
    } else {
        zblocks_output(s, i + 1, zblock_state(s[i], st), zblock_output(s[i], st, out))
    }
}

/// Whether the blocks from `i` on can be written so.
pub open spec fn zblocks_ok(s: Seq<ZBlock>, i: int, st: StateView, out: Seq<u8>) -> bool
    decreases s.len() - i,
{
    i >= s.len() || (zblock_ok(s[i], st, out) && zblocks_ok(
        s,
        i + 1,
        zblock_state(s[i], st),
        zblock_output(s[i], st, out),
    ))
}

proof fn lemma_zblocks(
    d: Seq<u8>,
    p: int,
    s: Seq<ZBlock>,
    i: int,
    st: StateView,
    out: Seq<u8>,
    rest: Seq<u8>,
)
    requires
        0 <= p <= d.len(),
        0 <= i < s.len(),
        d.skip(p) == zblocks_form(s, i, st) + rest,
        zblocks_ok(s, i, st, out),
    ensures
        blocks_from(d, p, st, out) == Ok::<(Seq<u8>, int), ZstdErrorView>(
            (zblocks_output(s, i, st, out), d.len() - rest.len()),
        ),
    decreases s.len() - i,
{
    let b = s[i];
    let last = i + 1 == s.len();
    let st2 = zblock_state(b, st);
    let out2 = zblock_output(b, st, out);
    let more = zblocks_form(s, i + 1, st2);
    let f = zblock_form(b, st, last);
    assert(f + more + rest =~= f + (more + rest));
    lemma_zheader(d, p, b, st, last, more + rest, out);
    let h = block_header_at(d, p)->Ok_0.0;
    lemma_zblock(d, p + 3, b, st, h, more + rest, out);
    if last {
        assert(more + rest =~= rest);
        assert(zblocks_output(s, i + 1, st2, out2) == out2);
    } else {
        lemma_zblocks(d, p + 3 + zblock_body(b, st).len(), s, i + 1, st2, out2, rest);
    }
}

/// How a frame starts: whether it is a single segment and has a checksum, how wide the size of its
/// content is, a bit without a meaning, and, where it is no single segment, its window.
pub struct FrameHead {
    pub single: bool,
    pub checksum: bool,
    pub unused: bool,
    pub width: nat,
    pub window: u8,
}

/// The number that says how wide the size of the content is.
pub open spec fn width_flag(width: nat) -> nat {
    if width <= 1 {
        0
    } else if width == 2 {
        1
    } else if width == 4 {
        2
    } else {
        3
    }
}

/// The first byte of a frame's header.
pub open spec fn descriptor(h: FrameHead) -> nat {
    64 * width_flag(h.width) + if h.single {
        32nat
    } else {
        0
    } + if h.unused {
        16nat
    } else {
        0
    } + if h.checksum {
        4nat
    } else {
        0
    }
}

/// The size of the content: in two bytes it is written less 256.
pub open spec fn size_form(width: nat, n: nat) -> Seq<u8> {
    if width == 2 {
        le_form((n - 256) as nat, 2)
    } else {
        le_form(n, width)
    }
}

/// The header of a frame whose content is of `n` bytes.
pub open spec fn head_form(h: FrameHead, n: nat) -> Seq<u8> {
    seq![0x28u8, 0xB5, 0x2F, 0xFD, descriptor(h) as u8] + (if h.single {
        seq![]
    } else {
        seq![h.window]
    }) + size_form(h.width, n)
}

/// Whether the size of the content can be written so: a single segment always tells its size.
pub open spec fn head_ok(h: FrameHead, n: nat) -> bool {
    &&& h.width == 0 && !h.single || h.width == 1 && h.single && n < 256 || h.width == 2 && 256 <= n
        < 0x1_0100 || h.width == 4 && n < 0x1_0000_0000 || h.width == 8
    &&& n <= ZSTD_MAX_DECOMP
}

proof fn lemma_descriptor(h: FrameHead)
    ensures
        descriptor(h) < 256,
        ({
            let x = descriptor(h) as u8;
            &&& x / 64 == width_flag(h.width)
            &&& x / 32 % 2 == 1 <==> h.single
            &&& x / 8 % 2 == 0
            &&& x / 4 % 2 == 1 <==> h.checksum
            &&& x % 4 == 0
        }),
{
}

/// The size of the content is read back from where it stands.
proof fn lemma_size(d: Seq<u8>, q: int, width: nat, single: bool, n: nat, rest: Seq<u8>)
    requires
        0 <= q <= d.len(),
        d.skip(q) == size_form(width, n) + rest,
        width == 0 && !single || width == 1 && single && n < 256 || width == 2 && 256 <= n
            < 0x1_0100 || width == 4 && n < 0x1_0000_0000 || width == 8 && n
            < 0x1_0000_0000_0000_0000,
    ensures
        content_size_at(d, q, width_flag(width) as u8, single) == Ok::<
            (Option<nat>, int),
            ZstdErrorView,
        >(
            (
                if width == 0 {
                    None::<nat>
                } else {
                    Some(n)
                },
                q + width,
            ),
        ),
        size_form(width, n).len() == width,
{
    lemma_pow256_values();
    let m = if width == 2 {
        (n - 256) as nat
    } else {
        n
    };
    law_le(m, width);
    lemma_skip(d, q, size_form(width, n), rest);
    if width > 0 {
        lemma_small_mod(m, pow256(width));
        assert(number_at(d, q, width as int) == Ok::<(nat, int), ZstdErrorView>((m, q + width)));
    }
}

proof fn lemma_head_bytes(h: FrameHead, n: nat, after: Seq<u8>)
    ensures
        ({
            let f = head_form(h, n);
            let d = f + after;
            let q = if h.single {
                5int
            } else {
                6
            };
            &&& d.take(4) == seq![0x28u8, 0xB5, 0x2F, 0xFD]
            &&& d[4] == descriptor(h) as u8
            &&& q <= d.len()
            &&& d.skip(q) == size_form(h.width, n) + after
            &&& f.len() == q + size_form(h.width, n).len()
        }),
{
    let d = head_form(h, n) + after;
    let q = if h.single {
        5int
    } else {
        6
    };
    assert(d.take(4) =~= seq![0x28u8, 0xB5, 0x2F, 0xFD]);
    assert(d.skip(q) =~= size_form(h.width, n) + after);
}

proof fn lemma_head(h: FrameHead, n: nat, after: Seq<u8>)
    requires
        head_ok(h, n),
    ensures
        ({
            let d = head_form(h, n) + after;
            let r = frame_header_at(d, 4);
            &&& d.take(4) == seq![0x28u8, 0xB5, 0x2F, 0xFD]
            &&& d.len() >= 4
            &&& r is Ok
            &&& r->Ok_0.1 == head_form(h, n).len()
            &&& r->Ok_0.0.content_checksum == h.checksum
            &&& r->Ok_0.0.frame_content_size == (if h.width == 0 {
                None::<u64>
            } else {
                Some(n as u64)
            })
        }),
{
    let d = head_form(h, n) + after;
    let q = if h.single {
        5int
    } else {
        6
    };
    lemma_descriptor(h);
    lemma_head_bytes(h, n, after);
    lemma_size(d, q, h.width, h.single, n, after);
}

/// A frame gives back what was written: whatever its header says of itself, in whichever forms its
/// blocks are, and whatever follows it. A checksum is passed over.
pub proof fn law_zstd_frame(h: FrameHead, s: Seq<ZBlock>, checksum: Seq<u8>, after: Seq<u8>)
    requires
        s.len() > 0,
        zblocks_ok(s, 0, first_state(), seq![]),
        head_ok(h, zblocks_output(s, 0, first_state(), seq![]).len()),
        h.checksum ==> checksum.len() == 4,
    ensures
        ({
            let out = zblocks_output(s, 0, first_state(), seq![]);
            frame_output(
                head_form(h, out.len()) + (zblocks_form(s, 0, first_state()) + (checksum + after)),
            ) == Ok::<Seq<u8>, ZstdErrorView>(out)
        }),
{
    let out = zblocks_output(s, 0, first_state(), seq![]);
    let rest = checksum + after;
    let blocks = zblocks_form(s, 0, first_state());
    let f = head_form(h, out.len());
    let d = f + (blocks + rest);
    lemma_head(h, out.len(), blocks + rest);
    lemma_behind(f, blocks + rest);
    lemma_zblocks(d, f.len() as int, s, 0, first_state(), seq![], rest);
}

proof fn lemma_run(shares: Seq<i16>, a: int, b: int, v: int)
    requires
        0 <= a <= b <= shares.len(),
        forall|x: int| a <= x < b ==> #[trigger] shares[x] == v,
        v == -1 || v >= 1,
    ensures
        all_used(shares, b) == all_used(shares, a) + (b - a) * (if v < 0 {
            1int
        } else {
            v
        }),
        rare(shares, b) == rare(shares, a) + (b - a) * (if v < 0 {
            1int
        } else {
            0
        }),
    decreases b - a,
{
    let u = if v < 0 {
        1int
    } else {
        v
    };
    if a < b {
        lemma_run(shares, a, b - 1, v);
        assert((b - 1 - a) * u + u == (b - a) * u) by (nonlinear_arith);
    } else {
        assert((b - a) * u == 0) by (nonlinear_arith)
            requires
                a == b,
        ;
    }
}

/// The shares that the format fixes fill their tables.
pub proof fn law_predefined_tables(class: SeqSymbolClass)
    ensures
        shares_fill(predefined(class).0 as nat, predefined(class).1),
        table_of(predefined(class).0, predefined(class).1) is Ok,
{
    let (log, s) = predefined(class);
    lemma2_to64();
    assert forall|x: int| 0 <= x < s.len() implies #[trigger] s[x] >= -1 by {
        law_predefined(x);
    }
    law_predefined(0);
    match class {
        SeqSymbolClass::LiteralLength => {
            assert forall|x: int| 0 <= x < 1 implies #[trigger] s[x] == 4 by {
                law_predefined(x);
            }
            lemma_run(s, 0, 1, 4);
            assert forall|x: int| 1 <= x < 2 implies #[trigger] s[x] == 3 by {
                law_predefined(x);
            }
            lemma_run(s, 1, 2, 3);
            assert forall|x: int| 2 <= x < 13 implies #[trigger] s[x] == 2 by {
                law_predefined(x);
            }
            lemma_run(s, 2, 13, 2);
            assert forall|x: int| 13 <= x < 16 implies #[trigger] s[x] == 1 by {
                law_predefined(x);
            }
            lemma_run(s, 13, 16, 1);
            assert forall|x: int| 16 <= x < 25 implies #[trigger] s[x] == 2 by {
                law_predefined(x);
            }
            lemma_run(s, 16, 25, 2);
            assert forall|x: int| 25 <= x < 26 implies #[trigger] s[x] == 3 by {
                law_predefined(x);
            }
            lemma_run(s, 25, 26, 3);
            assert forall|x: int| 26 <= x < 27 implies #[trigger] s[x] == 2 by {
                law_predefined(x);
            }
            lemma_run(s, 26, 27, 2);
            assert forall|x: int| 27 <= x < 32 implies #[trigger] s[x] == 1 by {
                law_predefined(x);
            }
            lemma_run(s, 27, 32, 1);
            assert forall|x: int| 32 <= x < 36 implies #[trigger] s[x] == -1 by {
                law_predefined(x);
            }
            lemma_run(s, 32, 36, -1);
        },
        SeqSymbolClass::Offset => {
            assert forall|x: int| 0 <= x < 6 implies #[trigger] s[x] == 1 by {
                law_predefined(x);
            }
            lemma_run(s, 0, 6, 1);
            assert forall|x: int| 6 <= x < 9 implies #[trigger] s[x] == 2 by {
                law_predefined(x);
            }
            lemma_run(s, 6, 9, 2);
            assert forall|x: int| 9 <= x < 24 implies #[trigger] s[x] == 1 by {
                law_predefined(x);
            }
            lemma_run(s, 9, 24, 1);
            assert forall|x: int| 24 <= x < 29 implies #[trigger] s[x] == -1 by {
                law_predefined(x);
            }
            lemma_run(s, 24, 29, -1);
        },
        SeqSymbolClass::MatchLength => {
            assert forall|x: int| 0 <= x < 1 implies #[trigger] s[x] == 1 by {
                law_predefined(x);
            }
            lemma_run(s, 0, 1, 1);
            assert forall|x: int| 1 <= x < 2 implies #[trigger] s[x] == 4 by {
                law_predefined(x);
            }
            lemma_run(s, 1, 2, 4);
            assert forall|x: int| 2 <= x < 3 implies #[trigger] s[x] == 3 by {
                law_predefined(x);
            }
            lemma_run(s, 2, 3, 3);
            assert forall|x: int| 3 <= x < 9 implies #[trigger] s[x] == 2 by {
                law_predefined(x);
            }
            lemma_run(s, 3, 9, 2);
            assert forall|x: int| 9 <= x < 46 implies #[trigger] s[x] == 1 by {
                law_predefined(x);
            }
            lemma_run(s, 9, 46, 1);
            assert forall|x: int| 46 <= x < 53 implies #[trigger] s[x] == -1 by {
                law_predefined(x);
            }
            lemma_run(s, 46, 53, -1);
        },
    }
    law_fse_spread(log as nat, s);
}

/// The tables that the format fixes: the accuracy logs, and how many symbols have which share.
pub proof fn law_predefined(i: int)
    ensures
        predefined(SeqSymbolClass::LiteralLength).0 == 6,
        predefined(SeqSymbolClass::Offset).0 == 5,
        predefined(SeqSymbolClass::MatchLength).0 == 6,
        ({
            let s = predefined(SeqSymbolClass::LiteralLength).1;
            &&& s.len() == 36
            &&& 0 <= i < 36 ==> s[i] == if i == 0 {
                4int
            } else if i == 1 || i == 25 {
                3
            } else if i <= 12 || 16 <= i <= 26 {
                2
            } else if i <= 31 {
                1
            } else {
                -1
            }
        }),
        ({
            let s = predefined(SeqSymbolClass::Offset).1;
            &&& s.len() == 29
            &&& 0 <= i < 29 ==> s[i] == if 6 <= i <= 8 {
                2int
            } else if i <= 23 {
                1
            } else {
                -1
            }
        }),
        ({
            let s = predefined(SeqSymbolClass::MatchLength).1;
            &&& s.len() == 53
            &&& 0 <= i < 53 ==> s[i] == if i == 1 {
                4int
            } else if i == 2 {
                3
            } else if 3 <= i <= 8 {
                2
            } else if i <= 45 {
                1
            } else {
                -1
            }
        }),
{
}

} // verus!
