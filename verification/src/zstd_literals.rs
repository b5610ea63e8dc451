//! The literals section of a Zstandard block: its header, and literals that are not compressed.
use vstd::prelude::*;
use vstd::slice::slice_subrange;

use crate::bytes::{le, le_number};
use crate::value::copy_bytes;
use crate::zstd::{ZstdError, ZstdErrorView};

verus! {

/// How the literals are stored.
#[derive(Clone, Copy, Debug, PartialEq, Eq, Structural)]
pub enum LiteralsBlockType {
    /// As they are.
    Raw,
    /// One byte that is repeated.
    Rle,
    /// In Huffman codes, with the tree before them.
    Compressed,
    /// In Huffman codes, with the tree of an earlier block.
    Treeless,
}

/// The header of a literals section.
#[derive(Clone, Copy, Debug)]
pub struct LiteralsHeader {
    pub block_type: LiteralsBlockType,
    /// How many literals there are.
    pub regenerated_size: u32,
    /// How many bytes follow the header, where the literals are compressed; zero otherwise.
    pub compressed_size: u32,
    /// How many streams hold the literals, where they are compressed; one otherwise.
    pub streams: u8,
    /// How many bytes the header takes.
    pub header_len: usize,
}

/// The header of an uncompressed literals section in its first `n` bytes; the number of literals
/// stands above the lowest `low` bits.
pub open spec fn plain_header(
    b: Seq<u8>,
    block_type: LiteralsBlockType,
    n: int,
    low: nat,
) -> Result<LiteralsHeader, ZstdErrorView> {
    if b.len() < n {
        Err(ZstdErrorView::UnexpectedEof)
    } else {
        Ok(
            LiteralsHeader {
                block_type,
                regenerated_size: (le(b.take(n)) / low) as u32,
                compressed_size: 0,
                streams: 1,
                header_len: n as usize,
            },
        )
    }
}

/// The header of a compressed literals section in its first `n` bytes; each size is a number below
/// `limit`.
pub open spec fn packed_header(
    b: Seq<u8>,
    block_type: LiteralsBlockType,
    n: int,
    limit: nat,
    streams: u8,
) -> Result<LiteralsHeader, ZstdErrorView> {
    if b.len() < n {
        Err(ZstdErrorView::UnexpectedEof)
    } else {
        let h = le(b.take(n)) / 16;
        Ok(
            LiteralsHeader {
                block_type,
                regenerated_size: (h % limit) as u32,
                compressed_size: (h / limit % limit) as u32,
                streams,
                header_len: n as usize,
            },
        )
    }
}

/// The header at the start of a literals section.
pub open spec fn literals_header(b: Seq<u8>) -> Result<LiteralsHeader, ZstdErrorView> {
    if b.len() == 0 {
        Err(ZstdErrorView::UnexpectedEof)
    } else {
        let format = b[0] / 4 % 4;
        let block_type = match b[0] % 4 {
            0 => LiteralsBlockType::Raw,
            1 => LiteralsBlockType::Rle,
            2 => LiteralsBlockType::Compressed,
            _ => LiteralsBlockType::Treeless,
        };
        if block_type == LiteralsBlockType::Raw || block_type == LiteralsBlockType::Rle {
            match format {
                1 => plain_header(b, block_type, 2, 16),
                3 => plain_header(b, block_type, 3, 16),
                _ => plain_header(b, block_type, 1, 8),
            }
        } else {
            match format {
                0 => packed_header(b, block_type, 3, 0x400, 1),
                1 => packed_header(b, block_type, 3, 0x400, 4),
                2 => packed_header(b, block_type, 4, 0x4000, 4),
                _ => packed_header(b, block_type, 5, 0x4_0000, 4),
            }
        }
    }
}

/// The first `n` bytes.
pub open spec fn raw_literals(b: Seq<u8>, n: int) -> Result<Seq<u8>, ZstdErrorView> {
    if b.len() < n {
        Err(ZstdErrorView::UnexpectedEof)
    } else {
        Ok(b.take(n))
    }
}

/// The first byte `n` times.
pub open spec fn rle_literals(b: Seq<u8>, n: int) -> Result<Seq<u8>, ZstdErrorView> {
    if b.len() == 0 {
        Err(ZstdErrorView::UnexpectedEof)
    } else {
        Ok(Seq::new(n as nat, |i: int| b[0]))
    }
}

/// The bytes, or the error, are what `s` says.
pub open spec fn expands(r: Result<Vec<u8>, ZstdError>, s: Result<Seq<u8>, ZstdErrorView>) -> bool {
    match (r, s) {
        (Ok(v), Ok(w)) => v@ == w,
        (Err(x), Err(y)) => x@ == y,
        _ => false,
    }
}

fn read_plain_header(b: &[u8], block_type: LiteralsBlockType, n: usize, low: u64) -> (r: Result<
    LiteralsHeader,
    ZstdError,
>)
    requires
        n == 1 && low == 8 || (n == 2 || n == 3) && low == 16,
    ensures
        match (r, plain_header(b@, block_type, n as int, low as nat)) {
            (Ok(v), Ok(w)) => v == w && v.header_len <= b@.len(),
            (Err(x), Err(y)) => x@ == y,
            _ => false,
        },
{
    if b.len() < n {
        return Err(ZstdError::UnexpectedEof);
    }
    let t = slice_subrange(b, 0, n);
    assert(t@ =~= b@.take(n as int));
    let h: u64 = le_number(t);
    proof {
        crate::bytes::lemma_pow256_values();
        crate::bytes::lemma_le_bound(t@);
    }
    Ok(
        LiteralsHeader {
            block_type,
            regenerated_size: (h / low) as u32,
            compressed_size: 0,
            streams: 1,
            header_len: n,
        },
    )
}

fn read_packed_header(
    b: &[u8],
    block_type: LiteralsBlockType,
    n: usize,
    limit: u64,
    streams: u8,
) -> (r: Result<LiteralsHeader, ZstdError>)
    requires
        n <= 5,
        limit == 0x400 || limit == 0x4000 || limit == 0x4_0000,
    ensures
        match (r, packed_header(b@, block_type, n as int, limit as nat, streams)) {
            (Ok(v), Ok(w)) => v == w && v.header_len <= b@.len(),
            (Err(x), Err(y)) => x@ == y,
            _ => false,
        },
{
    if b.len() < n {
        return Err(ZstdError::UnexpectedEof);
    }
    let t = slice_subrange(b, 0, n);
    assert(t@ =~= b@.take(n as int));
    let h: u64 = le_number(t) / 16;
    Ok(
        LiteralsHeader {
            block_type,
            regenerated_size: (h % limit) as u32,
            compressed_size: (h / limit % limit) as u32,
            streams,
            header_len: n,
        },
    )
}

/// Reads the header of a literals section.
pub fn parse_literals_header(b: &[u8]) -> (r: Result<LiteralsHeader, ZstdError>)
    ensures
        match (r, literals_header(b@)) {
            (Ok(v), Ok(w)) => v == w && 0 < v.header_len <= b@.len(),
            (Err(x), Err(y)) => x@ == y,
            _ => false,
        },
{
    if b.len() == 0 {
        return Err(ZstdError::UnexpectedEof);
    }
    let format: u8 = b[0] / 4 % 4;
    let block_type = match b[0] % 4 {
        0 => LiteralsBlockType::Raw,
        1 => LiteralsBlockType::Rle,
        2 => LiteralsBlockType::Compressed,
        _ => LiteralsBlockType::Treeless,
    };
    if block_type == LiteralsBlockType::Raw || block_type == LiteralsBlockType::Rle {
        match format {
            1 => read_plain_header(b, block_type, 2, 16),
            3 => read_plain_header(b, block_type, 3, 16),
            _ => read_plain_header(b, block_type, 1, 8),
        }
    } else {
        match format {
            0 => read_packed_header(b, block_type, 3, 0x400, 1),
            1 => read_packed_header(b, block_type, 3, 0x400, 4),
            2 => read_packed_header(b, block_type, 4, 0x4000, 4),
            _ => read_packed_header(b, block_type, 5, 0x4_0000, 4),
        }
    }
}

/// The first `n` bytes.
pub fn decode_raw_literals(b: &[u8], n: usize) -> (r: Result<Vec<u8>, ZstdError>)
    ensures
        expands(r, raw_literals(b@, n as int)),
{
    if b.len() < n {
        return Err(ZstdError::UnexpectedEof);
    }
    let t = slice_subrange(b, 0, n);
    assert(t@ =~= b@.take(n as int));
    Ok(copy_bytes(t))
}

/// The first byte `n` times.
pub fn decode_rle_literals(b: &[u8], n: usize) -> (r: Result<Vec<u8>, ZstdError>)
    ensures
        expands(r, rle_literals(b@, n as int)),
{
    if b.len() == 0 {
        return Err(ZstdError::UnexpectedEof);
    }
    let mut out: Vec<u8> = Vec::new();
    repeat_byte(&mut out, b[0], n);
    proof {
        assert(out@ =~= Seq::new(n as nat, |i: int| b@[0]));
    }
    Ok(out)
}

/// Appends the byte `n` times.
pub fn repeat_byte(out: &mut Vec<u8>, x: u8, n: usize)
    ensures
        final(out)@ == old(out)@ + Seq::new(n as nat, |i: int| x),
{
    let ghost before = out@;
    let mut i: usize = 0;
    while i < n
        invariant
            i <= n,
            out@ == before + Seq::new(i as nat, |j: int| x),
        decreases n - i,
    {
        out.push(x);
        proof {
            assert(out@ =~= before + Seq::new((i + 1) as nat, |j: int| x));
        }
        i = i + 1;
    }
}

} // verus!
