//! Zstandard frames.
use vstd::arithmetic::power2::{
    lemma2_to64, lemma_pow2_strictly_increases, lemma_pow2_unfold, pow2,
};
use vstd::prelude::*;
use vstd::slice::slice_subrange;

use crate::bytes::{le, le_number};
use crate::zstd_fse::{FseTable, FseTableView};
use crate::zstd_huffman::{parse_huffman_tree, tree_at, HuffmanTree, HuffmanView};
use crate::zstd_huffstream::{
    compressed_literals, decode_compressed_literals, decode_treeless_literals, treeless_literals,
};
use crate::zstd_literals::{
    decode_raw_literals, decode_rle_literals, expands, literals_header, parse_literals_header,
    raw_literals, repeat_byte, rle_literals, LiteralsBlockType,
};
use crate::zstd_seqexec::{
    append, bounded_sum, executed, execute_sequences, first_offsets, fits, saturated, RepeatOffsets,
};
use crate::zstd_sequences::{
    decode_sequences_stream, load_fse_table_for_mode, parse_sequences_header, sequences_header,
    stream_sequences, table_for_mode, SeqSymbolClass, SequencesHeader, Tables,
};

verus! {

/// No frame is decompressed to more bytes than this.
pub const ZSTD_MAX_DECOMP: usize = 0x1000_0000;

/// No block holds, or stands for, more bytes than this.
pub const BLOCK_MAX_SIZE: usize = 0x2_0000;

/// The bytes at the start of a frame.
pub const ZSTD_MAGIC: [u8; 4] = [0x28, 0xB5, 0x2F, 0xFD];

/// Why a frame could not be decompressed.
#[non_exhaustive]
#[derive(Debug, Clone, PartialEq, Eq)]
pub enum ZstdError {
    /// The input ends, or runs out of what it promised, in the middle of something.
    UnexpectedEof,
    /// The frame does not start with the magic bytes.
    BadMagic([u8; 4]),
    /// A reserved bit of the frame header's first byte is set.
    ReservedFrameHeaderBit(u8),
    /// The frame needs the dictionary with this number.
    DictionaryNotSupported(u32),
    /// The frame says that it holds more than the cap.
    FrameContentSizeTooLarge { claimed: u64, cap: usize },
    /// A block has the reserved type.
    ReservedBlockType,
    /// A block says that it is larger than blocks can be.
    BlockSizeTooLarge { claimed: usize, max: usize },
    /// A compressed block that cannot be decoded.
    CompressedBlockNotYetSupported { block_size: usize },
    /// The output is not of the size the frame says.
    SizeMismatch { declared: u64, decoded: usize },
    /// The output would grow beyond the cap.
    DecompressionBomb { decoded: usize, cap: usize },
    /// The frame's checksum is cut off.
    TrailingChecksumTruncated,
    /// Literals of a type that cannot be decoded.
    LiteralsBlockTypeNotYetSupported { block_type: u8 },
    /// A Huffman tree description that cannot be decoded.
    FseWeightHuffmanNotYetSupported { header_byte: u8 },
}

/// What a [`ZstdError`] says.
pub enum ZstdErrorView {
    UnexpectedEof,
    BadMagic(Seq<u8>),
    ReservedFrameHeaderBit(u8),
    DictionaryNotSupported(u32),
    FrameContentSizeTooLarge { claimed: u64, cap: usize },
    ReservedBlockType,
    BlockSizeTooLarge { claimed: usize, max: usize },
    CompressedBlockNotYetSupported { block_size: usize },
    SizeMismatch { declared: u64, decoded: usize },
    DecompressionBomb { decoded: usize, cap: usize },
    TrailingChecksumTruncated,
    LiteralsBlockTypeNotYetSupported { block_type: u8 },
    FseWeightHuffmanNotYetSupported { header_byte: u8 },
}

impl View for ZstdError {
    type V = ZstdErrorView;

    open spec fn view(&self) -> ZstdErrorView {
        match *self {
            ZstdError::UnexpectedEof => ZstdErrorView::UnexpectedEof,
            ZstdError::BadMagic(m) => ZstdErrorView::BadMagic(m@),
            ZstdError::ReservedFrameHeaderBit(b) => ZstdErrorView::ReservedFrameHeaderBit(b),
            ZstdError::DictionaryNotSupported(n) => ZstdErrorView::DictionaryNotSupported(n),
            ZstdError::FrameContentSizeTooLarge { claimed, cap } =>
                ZstdErrorView::FrameContentSizeTooLarge { claimed, cap },
            ZstdError::ReservedBlockType => ZstdErrorView::ReservedBlockType,
            ZstdError::BlockSizeTooLarge { claimed, max } => ZstdErrorView::BlockSizeTooLarge {
                claimed,
                max,
            },
            ZstdError::CompressedBlockNotYetSupported { block_size } =>
                ZstdErrorView::CompressedBlockNotYetSupported { block_size },
            ZstdError::SizeMismatch { declared, decoded } => ZstdErrorView::SizeMismatch {
                declared,
                decoded,
            },
            ZstdError::DecompressionBomb { decoded, cap } => ZstdErrorView::DecompressionBomb {
                decoded,
                cap,
            },
            ZstdError::TrailingChecksumTruncated => ZstdErrorView::TrailingChecksumTruncated,
            ZstdError::LiteralsBlockTypeNotYetSupported { block_type } =>
                ZstdErrorView::LiteralsBlockTypeNotYetSupported { block_type },
            ZstdError::FseWeightHuffmanNotYetSupported { header_byte } =>
                ZstdErrorView::FseWeightHuffmanNotYetSupported { header_byte },
        }
    }
}

/// What the header of a frame says of it.
#[derive(Clone, Copy, Debug)]
pub struct FrameHeader {
    /// How many bytes the frame holds, if it says so.
    pub frame_content_size: Option<u64>,
    /// Whether the frame is a single segment: its content is then its window.
    pub single_segment: bool,
    /// Whether a checksum follows the last block.
    pub content_checksum: bool,
    /// How many bytes back a copy may reach.
    pub window_size: u64,
}

/// The header of a block.
#[derive(Clone, Copy, Debug)]
pub struct BlockHeader {
    pub last_block: bool,
    pub block_type: BlockType,
    /// How many bytes follow; for a repeated byte, how often it is repeated.
    pub block_size: usize,
}

/// How a block is stored.
#[derive(Clone, Copy, Debug, PartialEq, Eq, Structural)]
pub enum BlockType {
    /// As it is.
    Raw,
    /// One byte that is repeated.
    Rle,
    Compressed,
}

/// The number in the `n` bytes at `p`, and the position behind it.
pub open spec fn number_at(b: Seq<u8>, p: int, n: int) -> Result<(nat, int), ZstdErrorView> {
    if p + n > b.len() {
        Err(ZstdErrorView::UnexpectedEof)
    } else {
        Ok((le(b.subrange(p, p + n)), p + n))
    }
}

/// The size of the content at `p`, and the position behind it. `flag` says how wide it is; a size
/// of no width is one byte wide in a frame of a single segment and missing in others.
pub open spec fn content_size_at(b: Seq<u8>, p: int, flag: u8, single: bool) -> Result<
    (Option<nat>, int),
    ZstdErrorView,
> {
    if flag == 0 && !single {
        Ok((None, p))
    } else {
        let width = match flag {
            0 => 1int,
            1 => 2,
            2 => 4,
            _ => 8,
        };
        match number_at(b, p, width) {
            Err(e) => Err(e),
            Ok((n, q)) => Ok(
                (
                    Some(
                        if flag == 1 {
                            n + 256
                        } else {
                            n
                        },
                    ),
                    q,
                ),
            ),
        }
    }
}

/// The size of a window with the descriptor: a power of two from 1 KiB on, and eighths of it.
pub open spec fn window_of(descriptor: u8) -> nat {
    let base = 1024 * pow2((descriptor / 8) as nat);
    base + base / 8 * (descriptor % 8) as nat
}

/// The header of a frame at `p`, and the position behind it. A frame that is not a single segment
/// describes its window.
pub open spec fn frame_header_at(b: Seq<u8>, p: int) -> Result<(FrameHeader, int), ZstdErrorView> {
    if p >= b.len() {
        Err(ZstdErrorView::UnexpectedEof)
    } else {
        let d = b[p];
        let single = d / 32 % 2 == 1;
        let q = if single {
            p + 1
        } else {
            p + 2
        };
        if d / 8 % 2 == 1 {
            Err(ZstdErrorView::ReservedFrameHeaderBit(d))
        } else if q > b.len() {
            Err(ZstdErrorView::UnexpectedEof)
        } else if d % 4 != 0 {
            let width = match d % 4 {
                1 => 1int,
                2 => 2,
                _ => 4,
            };
            match number_at(b, q, width) {
                Err(e) => Err(e),
                Ok((id, _)) => Err(ZstdErrorView::DictionaryNotSupported(id as u32)),
            }
        } else {
            match content_size_at(b, q, (d / 64) as u8, single) {
                Err(e) => Err(e),
                Ok((None, r)) => Ok(
                    (
                        FrameHeader {
                            frame_content_size: None,
                            single_segment: single,
                            content_checksum: d / 4 % 2 == 1,
                            window_size: window_of(b[p + 1]) as u64,
                        },
                        r,
                    ),
                ),
                Ok((Some(n), r)) => if n > ZSTD_MAX_DECOMP {
                    Err(
                        ZstdErrorView::FrameContentSizeTooLarge {
                            claimed: n as u64,
                            cap: ZSTD_MAX_DECOMP,
                        },
                    )
                } else {
                    Ok(
                        (
                            FrameHeader {
                                frame_content_size: Some(n as u64),
                                single_segment: single,
                                content_checksum: d / 4 % 2 == 1,
                                window_size: if single {
                                    n as u64
                                } else {
                                    window_of(b[p + 1]) as u64
                                },
                            },
                            r,
                        ),
                    )
                },
            }
        }
    }
}

/// The header of a block at `p`, and the position behind it.
pub open spec fn block_header_at(b: Seq<u8>, p: int) -> Result<(BlockHeader, int), ZstdErrorView> {
    match number_at(b, p, 3) {
        Err(e) => Err(e),
        Ok((h, q)) => {
            let size = (h / 8) as usize;
            if h / 2 % 4 == 3 {
                Err(ZstdErrorView::ReservedBlockType)
            } else if size > BLOCK_MAX_SIZE {
                Err(ZstdErrorView::BlockSizeTooLarge { claimed: size, max: BLOCK_MAX_SIZE })
            } else {
                Ok(
                    (
                        BlockHeader {
                            last_block: h % 2 == 1,
                            block_type: if h / 2 % 4 == 0 {
                                BlockType::Raw
                            } else if h / 2 % 4 == 1 {
                                BlockType::Rle
                            } else {
                                BlockType::Compressed
                            },
                            block_size: size,
                        },
                        q,
                    ),
                )
            }
        },
    }
}

/// What one block of a frame leaves for the next.
pub struct StateView {
    pub tree: Option<HuffmanView>,
    pub ll: Option<FseTableView>,
    pub of: Option<FseTableView>,
    pub ml: Option<FseTableView>,
    pub repeats: RepeatOffsets,
}

impl StateView {
    /// The tree and the tables can be used.
    pub open spec fn wf(self) -> bool {
        &&& self.tree is Some ==> self.tree->0.wf()
        &&& self.ll is Some ==> self.ll->0.wf(35)
        &&& self.of is Some ==> self.of->0.wf(31)
        &&& self.ml is Some ==> self.ml->0.wf(52)
    }
}

/// The state at the start of a frame.
pub open spec fn first_state() -> StateView {
    StateView { tree: None, ll: None, of: None, ml: None, repeats: first_offsets() }
}

/// The literals of a block, how many bytes they take, and the tree that later blocks may use.
pub open spec fn literals_of(b: Seq<u8>, tree: Option<HuffmanView>) -> Result<
    (Seq<u8>, int, Option<HuffmanView>),
    ZstdErrorView,
> {
    match literals_header(b) {
        Err(e) => Err(e),
        Ok(h) => {
            let body = b.skip(h.header_len as int);
            let n = h.regenerated_size as int;
            match h.block_type {
                LiteralsBlockType::Raw => match raw_literals(body, n) {
                    Err(e) => Err(e),
                    Ok(v) => Ok((v, h.header_len + n, tree)),
                },
                LiteralsBlockType::Rle => match rle_literals(body, n) {
                    Err(e) => Err(e),
                    Ok(v) => Ok((v, h.header_len + 1, tree)),
                },
                LiteralsBlockType::Compressed => match compressed_literals(b) {
                    Err(e) => Err(e),
                    Ok((v, end)) => match tree_at(b.subrange(h.header_len as int, end)) {
                        Err(e) => Err(e),
                        Ok((t, _)) => Ok((v, end, Some(t))),
                    },
                },
                LiteralsBlockType::Treeless => match tree {
                    None => Err(ZstdErrorView::UnexpectedEof),
                    Some(t) => match treeless_literals(b, t) {
                        Err(e) => Err(e),
                        Ok((v, end)) => Ok((v, end, tree)),
                    },
                },
            }
        },
    }
}

/// The output with `add` behind it, as far as the cap allows.
pub open spec fn with_bytes(out: Seq<u8>, add: Seq<u8>) -> Result<Seq<u8>, ZstdErrorView> {
    if out.len() + add.len() > ZSTD_MAX_DECOMP {
        Err(
            ZstdErrorView::DecompressionBomb {
                decoded: bounded_sum(out.len() as int, add.len() as int),
                cap: ZSTD_MAX_DECOMP,
            },
        )
    } else {
        Ok(out + add)
    }
}

/// The three tables at the start of `b`, and how many bytes they take.
pub open spec fn tables_at(
    b: Seq<u8>,
    h: SequencesHeader,
    st: StateView,
) -> Result<(Tables, int), ZstdErrorView> {
    match table_for_mode(SeqSymbolClass::LiteralLength, h.ll_mode, b, st.ll) {
        Err(e) => Err(e),
        Ok((ll, p)) => match table_for_mode(SeqSymbolClass::Offset, h.of_mode, b.skip(p), st.of) {
            Err(e) => Err(e),
            Ok((of, q)) => match table_for_mode(
                SeqSymbolClass::MatchLength,
                h.ml_mode,
                b.skip(p).skip(q),
                st.ml,
            ) {
                Err(e) => Err(e),
                Ok((ml, r)) => Ok((Tables { ll, of, ml }, p + q + r)),
            },
        },
    }
}

/// The state and the output after a compressed block.
pub open spec fn compressed_block(b: Seq<u8>, st: StateView, out: Seq<u8>) -> Result<
    (StateView, Seq<u8>),
    ZstdErrorView,
> {
    match literals_of(b, st.tree) {
        Err(e) => Err(e),
        Ok((literals, n, tree)) => {
            let rest = b.skip(n);
            match sequences_header(rest) {
                Err(e) => Err(e),
                Ok(h) => if h.num_sequences == 0 {
                    match with_bytes(out, literals) {
                        Err(e) => Err(e),
                        Ok(o) => Ok((StateView { tree, ..st }, o)),
                    }
                } else {
                    let body = rest.skip(h.header_len as int);
                    match tables_at(body, h, st) {
                        Err(e) => Err(e),
                        Ok((t, k)) => match stream_sequences(
                            t,
                            body.skip(k),
                            h.num_sequences as nat,
                        ) {
                            Err(e) => Err(e),
                            Ok(seqs) => match executed(
                                seqs,
                                0,
                                literals,
                                0,
                                st.repeats,
                                out,
                                ZSTD_MAX_DECOMP,
                            ) {
                                Err(e) => Err(e),
                                Ok((o, repeats)) => Ok(
                                    (
                                        StateView {
                                            tree,
                                            ll: Some(t.ll),
                                            of: Some(t.of),
                                            ml: Some(t.ml),
                                            repeats,
                                        },
                                        o,
                                    ),
                                ),
                            },
                        },
                    }
                },
            }
        },
    }
}

/// The state and the output after the block at `p` behind its header `h`, and the position behind
/// the block.
#[verifier::opaque]
pub open spec fn block_at(b: Seq<u8>, p: int, h: BlockHeader, st: StateView, out: Seq<u8>) -> Result<
    (StateView, Seq<u8>, int),
    ZstdErrorView,
> {
    let end = p + if h.block_type == BlockType::Rle {
        1
    } else {
        h.block_size as int
    };
    if end > b.len() {
        Err(ZstdErrorView::UnexpectedEof)
    } else {
        match h.block_type {
            BlockType::Raw => match with_bytes(out, b.subrange(p, end)) {
                Err(e) => Err(e),
                Ok(o) => Ok((st, o, end)),
            },
            BlockType::Rle => match with_bytes(
                out,
                Seq::new(h.block_size as nat, |i: int| b[p]),
            ) {
                Err(e) => Err(e),
                Ok(o) => Ok((st, o, end)),
            },
            BlockType::Compressed => match compressed_block(b.subrange(p, end), st, out) {
                Err(e) => Err(e),
                Ok((s, o)) => Ok((s, o, end)),
            },
        }
    }
}

/// The output after the blocks from `p` on, and the position behind the last.
pub open spec fn blocks_from(b: Seq<u8>, p: int, st: StateView, out: Seq<u8>) -> Result<
    (Seq<u8>, int),
    ZstdErrorView,
>
    decreases b.len() - p,
{
    proof {
        reveal(block_at);
    }
    match block_header_at(b, p) {
        Err(e) => Err(e),
        Ok((h, q)) => match block_at(b, q, h, st, out) {
            Err(e) => Err(e),
            Ok((s, o, end)) => if h.last_block {
                Ok((o, end))
            } else {
                blocks_from(b, end, s, o)
            },
        },
    }
}

/// What a frame decompresses to. Of a checksum only the presence counts.
pub open spec fn frame_output(b: Seq<u8>) -> Result<Seq<u8>, ZstdErrorView> {
    if b.len() < 4 {
        Err(ZstdErrorView::UnexpectedEof)
    } else if b.take(4) != ZSTD_MAGIC@ {
        Err(ZstdErrorView::BadMagic(b.take(4)))
    } else {
        match frame_header_at(b, 4) {
            Err(e) => Err(e),
            Ok((h, p)) => match blocks_from(b, p, first_state(), seq![]) {
                Err(e) => Err(e),
                Ok((out, end)) => if h.frame_content_size is Some && h.frame_content_size->0
                    != out.len() {
                    Err(
                        ZstdErrorView::SizeMismatch {
                            declared: h.frame_content_size->0,
                            decoded: out.len() as usize,
                        },
                    )
                } else if h.content_checksum && end + 4 > b.len() {
                    Err(ZstdErrorView::TrailingChecksumTruncated)
                } else {
                    Ok(out)
                },
            },
        }
    }
}

/// What a block leaves for the next.
struct DecoderState {
    tree: Option<HuffmanTree>,
    ll: Option<FseTable>,
    of: Option<FseTable>,
    ml: Option<FseTable>,
    repeats: RepeatOffsets,
}

/// What an optional tree says.
pub open spec fn tree_view(t: Option<HuffmanTree>) -> Option<HuffmanView> {
    match t {
        None => None,
        Some(t) => Some(t@),
    }
}

/// What an optional table says.
pub open spec fn table_view(t: Option<FseTable>) -> Option<FseTableView> {
    match t {
        None => None,
        Some(t) => Some(t@),
    }
}

impl View for DecoderState {
    type V = StateView;

    closed spec fn view(&self) -> StateView {
        StateView {
            tree: tree_view(self.tree),
            ll: table_view(self.ll),
            of: table_view(self.of),
            ml: table_view(self.ml),
            repeats: self.repeats,
        }
    }
}

impl DecoderState {
    fn new() -> (r: DecoderState)
        ensures
            r@ == first_state(),
    {
        DecoderState {
            tree: None,
            ll: None,
            of: None,
            ml: None,
            repeats: RepeatOffsets::new(),
        }
    }
}

/// The number in the `n` bytes at `p`.
fn read_number(b: &[u8], p: usize, n: usize) -> (r: Result<u64, ZstdError>)
    requires
        p <= b@.len(),
        n <= 8,
    ensures
        match (r, number_at(b@, p as int, n as int)) {
            (Ok(v), Ok(w)) => v == w.0 && p + n == w.1 && p + n <= b@.len() && v
                < crate::bytes::pow256(n as nat),
            (Err(x), Err(y)) => x@ == y,
            _ => false,
        },
{
    if b.len() - p < n {
        return Err(ZstdError::UnexpectedEof);
    }
    let t = slice_subrange(b, p, p + n);
    proof {
        crate::bytes::lemma_le_bound(t@);
    }
    Ok(le_number(t))
}

/// The size of a window with the descriptor.
fn window_size(descriptor: u8) -> (r: u64)
    ensures
        r == window_of(descriptor),
{
    let e: u8 = descriptor / 8;
    let mut base: u64 = 1024;
    let mut i: u8 = 0;
    proof {
        lemma2_to64();
    }
    while i < e
        invariant
            i <= e <= 31,
            base == 1024 * pow2(i as nat),
            pow2(31) == 0x8000_0000,
        decreases e - i,
    {
        proof {
            lemma_pow2_unfold((i + 1) as nat);
            lemma_pow2_strictly_increases(i as nat, 31);
        }
        base = base * 2;
        i = i + 1;
    }
    let eighths: u64 = (descriptor % 8) as u64;
    proof {
        if e < 31 {
            lemma_pow2_strictly_increases(e as nat, 31);
        }
        assert(base / 8 * eighths <= 0x400_0000_0000) by (nonlinear_arith)
            requires
                base <= 0x200_0000_0000,
                eighths <= 7,
        ;
    }
    base + base / 8 * eighths
}

/// Reads the header of a frame at `p`: the header, and the position behind it.
pub fn decode_frame_header(b: &[u8], p: usize) -> (r: Result<(FrameHeader, usize), ZstdError>)
    requires
        p <= b@.len(),
    ensures
        match (r, frame_header_at(b@, p as int)) {
            (Ok(v), Ok(w)) => v.0 == w.0 && v.1 == w.1 && v.1 <= b@.len(),
            (Err(x), Err(y)) => x@ == y,
            _ => false,
        },
{
    assert(b@.len() == b.len());
    proof {
        crate::bytes::lemma_pow256_values();
    }
    if p >= b.len() {
        return Err(ZstdError::UnexpectedEof);
    }
    let d: u8 = b[p];
    let single: bool = d / 32 % 2 == 1;
    if d / 8 % 2 == 1 {
        return Err(ZstdError::ReservedFrameHeaderBit(d));
    }
    let content_checksum: bool = d / 4 % 2 == 1;
    if !single && b.len() - p < 2 {
        return Err(ZstdError::UnexpectedEof);
    }
    let q: usize = if single {
        p + 1
    } else {
        p + 2
    };
    let window: u64 = if single {
        0
    } else {
        window_size(b[p + 1])
    };
    let dictionary: u8 = d % 4;
    if dictionary != 0 {
        let width: usize = match dictionary {
            1 => 1,
            2 => 2,
            _ => 4,
        };
        let id: u64 = read_number(b, q, width)?;
        return Err(ZstdError::DictionaryNotSupported(id as u32));
    }
    let flag: u8 = d / 64;
    if flag == 0 && !single {
        let h = FrameHeader {
            frame_content_size: None,
            single_segment: single,
            content_checksum,
            window_size: window,
        };
        return Ok((h, q));
    }
    let width: usize = match flag {
        0 => 1,
        1 => 2,
        2 => 4,
        _ => 8,
    };
    let n: u64 = read_number(b, q, width)?;
    let size: u64 = if flag == 1 {
        n + 256
    } else {
        n
    };
    if size > ZSTD_MAX_DECOMP as u64 {
        return Err(
            ZstdError::FrameContentSizeTooLarge { claimed: size, cap: ZSTD_MAX_DECOMP },
        );
    }
    let h = FrameHeader {
        frame_content_size: Some(size),
        single_segment: single,
        content_checksum,
        window_size: if single {
            size
        } else {
            window
        },
    };
    Ok((h, q + width))
}

/// Reads the header of a block at `p`, which takes three bytes.
fn decode_block_header(b: &[u8], p: usize) -> (r: Result<BlockHeader, ZstdError>)
    requires
        p <= b@.len(),
    ensures
        match (r, block_header_at(b@, p as int)) {
            (Ok(v), Ok(w)) => v == w.0 && p + 3 == w.1 && w.1 <= b@.len() && v.block_size
                <= BLOCK_MAX_SIZE,
            (Err(x), Err(y)) => x@ == y,
            _ => false,
        },
{
    proof {
        crate::bytes::lemma_pow256_values();
    }
    let h: u64 = read_number(b, p, 3)?;
    let kind: u64 = h / 2 % 4;
    let size: usize = (h / 8) as usize;
    let block_type = match kind {
        0 => BlockType::Raw,
        1 => BlockType::Rle,
        2 => BlockType::Compressed,
        _ => {
            return Err(ZstdError::ReservedBlockType);
        },
    };
    if size > BLOCK_MAX_SIZE {
        return Err(ZstdError::BlockSizeTooLarge { claimed: size, max: BLOCK_MAX_SIZE });
    }
    Ok(BlockHeader { last_block: h % 2 == 1, block_type, block_size: size })
}

/// Appends the bytes as far as the cap allows.
fn extend(out: &mut Vec<u8>, add: &[u8]) -> (r: Result<(), ZstdError>)
    ensures
        match (r, with_bytes(old(out)@, add@)) {
            (Ok(_), Ok(w)) => final(out)@ == w,
            (Err(x), Err(y)) => x@ == y,
            _ => false,
        },
{
    if !fits(out.len(), add.len(), ZSTD_MAX_DECOMP) {
        return Err(
            ZstdError::DecompressionBomb {
                decoded: saturated(out.len(), add.len() as u64),
                cap: ZSTD_MAX_DECOMP,
            },
        );
    }
    append(out, add);
    Ok(())
}

/// Reads the literals of a block, and how many bytes they take.
fn decode_literals(b: &[u8], state: &mut DecoderState) -> (r: Result<(Vec<u8>, usize), ZstdError>)
    requires
        old(state)@.wf(),
    ensures
        match (r, literals_of(b@, old(state)@.tree)) {
            (Ok(v), Ok(w)) => v.0@ == w.0 && v.1 == w.1 && v.1 <= b@.len() && final(state)@ == (
            StateView { tree: w.2, ..old(state)@ }) && final(state)@.wf(),
            (Err(x), Err(y)) => x@ == y,
            _ => false,
        },
{
    let h = parse_literals_header(b)?;
    let body = slice_subrange(b, h.header_len, b.len());
    proof {
        assert(body@ =~= b@.skip(h.header_len as int));
    }
    match h.block_type {
        LiteralsBlockType::Raw => {
            let v = decode_raw_literals(body, h.regenerated_size as usize)?;
            Ok((v, h.header_len + h.regenerated_size as usize))
        },
        LiteralsBlockType::Rle => {
            let v = decode_rle_literals(body, h.regenerated_size as usize)?;
            Ok((v, h.header_len + 1))
        },
        LiteralsBlockType::Compressed => {
            let (v, end) = decode_compressed_literals(b)?;
            let (tree, _) = parse_huffman_tree(slice_subrange(b, h.header_len, end))?;
            state.tree = Some(tree);
            Ok((v, end))
        },
        LiteralsBlockType::Treeless => match &state.tree {
            None => Err(ZstdError::UnexpectedEof),
            Some(tree) => decode_treeless_literals(b, tree),
        },
    }
}

/// The table, if there is one.
fn table_ref(t: &Option<FseTable>) -> (r: Option<&FseTable>)
    ensures
        crate::zstd_sequences::table_view(r) == table_view(*t),
{
    match t {
        None => None,
        Some(t) => Some(t),
    }
}

/// The three tables at the start of `body`, and how many bytes they take.
fn load_tables(body: &[u8], h: SequencesHeader, state: &DecoderState) -> (r: Result<
    (FseTable, FseTable, FseTable, usize),
    ZstdError,
>)
    requires
        state@.wf(),
    ensures
        match (r, tables_at(body@, h, state@)) {
            (Ok(v), Ok(w)) => v.0@ == w.0.ll && v.1@ == w.0.of && v.2@ == w.0.ml && v.3 == w.1
                && v.3 <= body@.len() && w.0.ll.wf(35) && w.0.of.wf(31) && w.0.ml.wf(52),
            (Err(x), Err(y)) => x@ == y,
            _ => false,
        },
{
    let (ll, p) = load_fse_table_for_mode(
        SeqSymbolClass::LiteralLength,
        h.ll_mode,
        body,
        table_ref(&state.ll),
    )?;
    let after_ll = slice_subrange(body, p, body.len());
    proof {
        assert(after_ll@ =~= body@.skip(p as int));
    }
    let (of, q) = load_fse_table_for_mode(
        SeqSymbolClass::Offset,
        h.of_mode,
        after_ll,
        table_ref(&state.of),
    )?;
    let after_of = slice_subrange(after_ll, q, after_ll.len());
    proof {
        assert(after_of@ =~= after_ll@.skip(q as int));
    }
    let (ml, k) = load_fse_table_for_mode(
        SeqSymbolClass::MatchLength,
        h.ml_mode,
        after_of,
        table_ref(&state.ml),
    )?;
    Ok((ll, of, ml, p + q + k))
}

/// Decompresses a compressed block to the end of the output.
fn decompress_compressed_block(b: &[u8], state: &mut DecoderState, out: &mut Vec<u8>) -> (r: Result<
    (),
    ZstdError,
>)
    requires
        old(state)@.wf(),
    ensures
        match (r, compressed_block(b@, old(state)@, old(out)@)) {
            (Ok(_), Ok(w)) => final(state)@ == w.0 && final(out)@ == w.1 && final(state)@.wf(),
            (Err(x), Err(y)) => x@ == y,
            _ => false,
        },
{
    let ghost st = state@;
    let (literals, n) = decode_literals(b, state)?;
    let rest = slice_subrange(b, n, b.len());
    proof {
        assert(rest@ =~= b@.skip(n as int));
    }
    let h = parse_sequences_header(rest)?;
    if h.num_sequences == 0 {
        extend(out, literals.as_slice())?;
        return Ok(());
    }
    let body = slice_subrange(rest, h.header_len, rest.len());
    proof {
        assert(body@ =~= rest@.skip(h.header_len as int));
    }
    let (ll, of, ml, k) = load_tables(body, h, state)?;
    let stream = slice_subrange(body, k, body.len());
    proof {
        assert(stream@ =~= body@.skip(k as int));
    }
    let seqs = decode_sequences_stream(stream, &ll, &of, &ml, h.num_sequences)?;
    state.ll = Some(ll);
    state.of = Some(of);
    state.ml = Some(ml);
    execute_sequences(&seqs, &literals, &mut state.repeats, out, ZSTD_MAX_DECOMP)?;
    Ok(())
}

/// Decompresses a block at `p` behind its header to the end of the output, and tells the position
/// behind it.
fn decompress_block(
    b: &[u8],
    p: usize,
    h: BlockHeader,
    state: &mut DecoderState,
    out: &mut Vec<u8>,
) -> (r: Result<usize, ZstdError>)
    requires
        p <= b@.len(),
        old(state)@.wf(),
    ensures
        match (r, block_at(b@, p as int, h, old(state)@, old(out)@)) {
            (Ok(end), Ok(w)) => final(state)@ == w.0 && final(out)@ == w.1 && end == w.2 && p <= end
                <= b@.len() && final(state)@.wf(),
            (Err(x), Err(y)) => x@ == y,
            _ => false,
        },
{
    reveal(block_at);
    assert(b@.len() == b.len());
    let width: usize = if h.block_type == BlockType::Rle {
        1
    } else {
        h.block_size
    };
    if b.len() - p < width {
        return Err(ZstdError::UnexpectedEof);
    }
    let end: usize = p + width;
    match h.block_type {
        BlockType::Raw => {
            extend(out, slice_subrange(b, p, end))?;
        },
        BlockType::Rle => {
            if !fits(out.len(), h.block_size, ZSTD_MAX_DECOMP) {
                return Err(
                    ZstdError::DecompressionBomb {
                        decoded: saturated(out.len(), h.block_size as u64),
                        cap: ZSTD_MAX_DECOMP,
                    },
                );
            }
            repeat_byte(out, b[p], h.block_size);
        },
        BlockType::Compressed => {
            decompress_compressed_block(slice_subrange(b, p, end), state, out)?;
        },
    }
    Ok(end)
}

/// Decompresses the blocks from `first` on to the end of the output, and tells the position behind
/// the last.
fn decompress_blocks(b: &[u8], first: usize, out: &mut Vec<u8>) -> (r: Result<usize, ZstdError>)
    requires
        first <= b@.len(),
    ensures
        match (r, blocks_from(b@, first as int, first_state(), old(out)@)) {
            (Ok(end), Ok(w)) => final(out)@ == w.0 && end == w.1 && end <= b@.len(),
            (Err(x), Err(y)) => x@ == y,
            _ => false,
        },
{
    let mut state = DecoderState::new();
    let mut p: usize = first;
    let ghost whole = blocks_from(b@, first as int, first_state(), out@);
    assert(b@.len() == b.len());
    loop
        invariant
            p <= b@.len() == b.len(),
            state@.wf(),
            whole == blocks_from(b@, first as int, first_state(), old(out)@),
            whole == blocks_from(b@, p as int, state@, out@),
        decreases b@.len() - p,
    {
        let h = decode_block_header(b, p)?;
        p = decompress_block(b, p + 3, h, &mut state, out)?;
        if h.last_block {
            return Ok(p);
        }
    }
}

/// Decompresses a frame.
pub fn decompress(input: &[u8]) -> (r: Result<Vec<u8>, ZstdError>)
    ensures
        expands(r, frame_output(input@)),
{
    if input.len() < 4 {
        return Err(ZstdError::UnexpectedEof);
    }
    let magic: [u8; 4] = [input[0], input[1], input[2], input[3]];
    proof {
        assert(magic@ =~= input@.take(4));
    }
    let wanted: [u8; 4] = ZSTD_MAGIC;
    if magic[0] != wanted[0] || magic[1] != wanted[1] || magic[2] != wanted[2] || magic[3]
        != wanted[3] {
        return Err(ZstdError::BadMagic(magic));
    }
    proof {
        assert(magic@ =~= ZSTD_MAGIC@);
    }
    let (header, first) = decode_frame_header(input, 4)?;
    let mut out: Vec<u8> = Vec::new();
    proof {
        assert(out@ =~= seq![]);
    }
    let end: usize = decompress_blocks(input, first, &mut out)?;
    if let Some(declared) = header.frame_content_size {
        if out.len() as u64 != declared {
            return Err(ZstdError::SizeMismatch { declared, decoded: out.len() });
        }
    }
    if header.content_checksum && input.len() - end < 4 {
        return Err(ZstdError::TrailingChecksumTruncated);
    }
    Ok(out)
}

} // verus!
