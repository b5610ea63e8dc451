//! Literals in Huffman codes.
use vstd::prelude::*;
use vstd::slice::slice_subrange;

use crate::bytes::{le, le_u16};
use crate::zstd::{ZstdError, ZstdErrorView};
use crate::zstd_fse::{back_bits, peek_at, BackReader};
use crate::zstd_huffman::{parse_huffman_tree, tree_at, HuffmanTree, HuffmanView};
use crate::zstd_literals::{literals_header, parse_literals_header, LiteralsHeader};

verus! {

/// The next `n` symbols of a stream of which `left` bits are left, behind those in `have`. They use
/// the stream up.
pub open spec fn symbols_from(
    tree: HuffmanView,
    s: Seq<u8>,
    left: int,
    n: nat,
    have: Seq<u8>,
) -> Result<Seq<u8>, ZstdErrorView>
    decreases n,
{
    if n == 0 {
        if left == 0 {
            Ok(have)
        } else {
            Err(ZstdErrorView::UnexpectedEof)
        }
    } else {
        let e = tree.entries[peek_at(s, left, tree.max_bits as nat)];
        if e.nb_bits > left {
            Err(ZstdErrorView::UnexpectedEof)
        } else {
            symbols_from(tree, s, left - e.nb_bits, (n - 1) as nat, have.push(e.symbol))
        }
    }
}

/// The `n` symbols of one stream, behind those in `have`.
pub open spec fn stream_symbols(tree: HuffmanView, s: Seq<u8>, n: nat, have: Seq<u8>) -> Result<
    Seq<u8>,
    ZstdErrorView,
> {
    match back_bits(s) {
        Err(e) => Err(e),
        Ok(bits) => symbols_from(tree, s, bits, n, have),
    }
}

/// The `n` symbols of four streams behind the sizes of the first three. The first three hold
/// equally many symbols.
pub open spec fn four_streams(tree: HuffmanView, s: Seq<u8>, n: nat) -> Result<
    Seq<u8>,
    ZstdErrorView,
> {
    let each = (n + 3) / 4;
    let a = 6 + le(s.subrange(0, 2));
    let b = a + le(s.subrange(2, 4));
    let c = b + le(s.subrange(4, 6));
    if s.len() < 6 || c > s.len() || 3 * each > n {
        Err(ZstdErrorView::UnexpectedEof)
    } else {
        match stream_symbols(tree, s.subrange(6, a as int), each, seq![]) {
            Err(e) => Err(e),
            Ok(first) => match stream_symbols(tree, s.subrange(a as int, b as int), each, first) {
                Err(e) => Err(e),
                Ok(second) => match stream_symbols(
                    tree,
                    s.subrange(b as int, c as int),
                    each,
                    second,
                ) {
                    Err(e) => Err(e),
                    Ok(third) => stream_symbols(
                        tree,
                        s.subrange(c as int, s.len() as int),
                        (n - 3 * each) as nat,
                        third,
                    ),
                },
            },
        }
    }
}

/// The literals in the streams that the header speaks of.
pub open spec fn streams_literals(tree: HuffmanView, s: Seq<u8>, h: LiteralsHeader) -> Result<
    Seq<u8>,
    ZstdErrorView,
> {
    if h.streams == 1 {
        stream_symbols(tree, s, h.regenerated_size as nat, seq![])
    } else {
        four_streams(tree, s, h.regenerated_size as nat)
    }
}

/// The literals of a compressed section, and how many bytes the section takes.
pub open spec fn compressed_literals(b: Seq<u8>) -> Result<(Seq<u8>, int), ZstdErrorView> {
    match literals_header(b) {
        Err(e) => Err(e),
        Ok(h) => {
            let end = h.header_len + h.compressed_size;
            if b.len() < end {
                Err(ZstdErrorView::UnexpectedEof)
            } else {
                let body = b.subrange(h.header_len as int, end);
                match tree_at(body) {
                    Err(e) => Err(e),
                    Ok((tree, n)) => match streams_literals(tree, body.skip(n), h) {
                        Err(e) => Err(e),
                        Ok(out) => Ok((out, end)),
                    },
                }
            }
        },
    }
}

/// The literals of a section that is compressed with the tree of an earlier one, and how many bytes
/// the section takes.
pub open spec fn treeless_literals(b: Seq<u8>, tree: HuffmanView) -> Result<
    (Seq<u8>, int),
    ZstdErrorView,
> {
    match literals_header(b) {
        Err(e) => Err(e),
        Ok(h) => {
            let end = h.header_len + h.compressed_size;
            if b.len() < end {
                Err(ZstdErrorView::UnexpectedEof)
            } else {
                match streams_literals(tree, b.subrange(h.header_len as int, end), h) {
                    Err(e) => Err(e),
                    Ok(out) => Ok((out, end)),
                }
            }
        },
    }
}

/// Appends the `n` symbols of one stream.
fn read_stream(tree: &HuffmanTree, s: &[u8], n: usize, out: &mut Vec<u8>) -> (r: Result<
    (),
    ZstdError,
>)
    requires
        tree@.wf(),
    ensures
        match (r, stream_symbols(tree@, s@, n as nat, old(out)@)) {
            (Ok(_), Ok(w)) => final(out)@ == w,
            (Err(x), Err(y)) => x@ == y,
            _ => false,
        },
{
    let mut r = BackReader::new(s)?;
    let ghost whole = symbols_from(tree@, s@, r.left(), n as nat, out@);
    let mut i: usize = 0;
    while i < n
        invariant
            i <= n,
            tree@.wf(),
            r.wf(),
            r.s == s,
            whole == symbols_from(tree@, s@, r.left(), (n - i) as nat, out@),
            whole == stream_symbols(tree@, s@, n as nat, old(out)@),
        decreases n - i,
    {
        let at: u32 = r.peek(tree.max_bits as u32);
        assert(at < tree@.entries.len());
        let e = tree.entries[at as usize];
        assert(tree@.entries[at as int] == e);
        if !r.drop_bits(e.nb_bits as u32) {
            return Err(ZstdError::UnexpectedEof);
        }
        out.push(e.symbol);
        i = i + 1;
    }
    if !r.is_empty() {
        return Err(ZstdError::UnexpectedEof);
    }
    Ok(())
}

/// Reads the literals in the streams that the header speaks of.
fn read_streams(tree: &HuffmanTree, s: &[u8], h: LiteralsHeader) -> (r: Result<Vec<u8>, ZstdError>)
    requires
        tree@.wf(),
        h.regenerated_size < 0x1000_0000,
    ensures
        match (r, streams_literals(tree@, s@, h)) {
            (Ok(v), Ok(w)) => v@ == w,
            (Err(x), Err(y)) => x@ == y,
            _ => false,
        },
{
    let n: usize = h.regenerated_size as usize;
    let mut out: Vec<u8> = Vec::new();
    proof {
        assert(out@ =~= seq![]);
    }
    if h.streams == 1 {
        read_stream(tree, s, n, &mut out)?;
        return Ok(out);
    }
    let each: usize = (n + 3) / 4;
    if s.len() < 6 || 3 * each > n {
        return Err(ZstdError::UnexpectedEof);
    }
    let size1: usize = le_u16(s, 0) as usize;
    let size2: usize = le_u16(s, 2) as usize;
    let size3: usize = le_u16(s, 4) as usize;
    let a: usize = 6 + size1;
    let b: usize = a + size2;
    let c: usize = b + size3;
    if c > s.len() {
        return Err(ZstdError::UnexpectedEof);
    }
    read_stream(tree, slice_subrange(s, 6, a), each, &mut out)?;
    read_stream(tree, slice_subrange(s, a, b), each, &mut out)?;
    read_stream(tree, slice_subrange(s, b, c), each, &mut out)?;
    read_stream(tree, slice_subrange(s, c, s.len()), n - 3 * each, &mut out)?;
    Ok(out)
}

proof fn lemma_header_sizes(b: Seq<u8>)
    ensures
        literals_header(b) is Ok ==> literals_header(b)->Ok_0.regenerated_size < 0x1000_0000
            && literals_header(b)->Ok_0.compressed_size < 0x4_0000,
{
    crate::bytes::lemma_pow256_values();
    crate::bytes::lemma_le_bound(b.take(1));
    crate::bytes::lemma_le_bound(b.take(2));
    crate::bytes::lemma_le_bound(b.take(3));
}

/// Reads a compressed literals section: the literals, and how many bytes it takes.
pub fn decode_compressed_literals(b: &[u8]) -> (r: Result<(Vec<u8>, usize), ZstdError>)
    ensures
        match (r, compressed_literals(b@)) {
            (Ok(v), Ok(w)) => v.0@ == w.0 && v.1 == w.1 && v.1 <= b@.len(),
            (Err(x), Err(y)) => x@ == y,
            _ => false,
        },
{
    let h = parse_literals_header(b)?;
    proof {
        lemma_header_sizes(b@);
    }
    if b.len() - h.header_len < h.compressed_size as usize {
        return Err(ZstdError::UnexpectedEof);
    }
    let end: usize = h.header_len + h.compressed_size as usize;
    let body = slice_subrange(b, h.header_len, end);
    let (tree, n) = parse_huffman_tree(body)?;
    let s = slice_subrange(body, n, body.len());
    proof {
        assert(s@ =~= body@.skip(n as int));
    }
    let out = read_streams(&tree, s, h)?;
    Ok((out, end))
}

/// Reads a literals section that is compressed with the tree of an earlier one: the literals, and
/// how many bytes it takes.
pub fn decode_treeless_literals(b: &[u8], tree: &HuffmanTree) -> (r: Result<
    (Vec<u8>, usize),
    ZstdError,
>)
    requires
        tree@.wf(),
    ensures
        match (r, treeless_literals(b@, tree@)) {
            (Ok(v), Ok(w)) => v.0@ == w.0 && v.1 == w.1 && v.1 <= b@.len(),
            (Err(x), Err(y)) => x@ == y,
            _ => false,
        },
{
    let h = parse_literals_header(b)?;
    proof {
        lemma_header_sizes(b@);
    }
    if b.len() - h.header_len < h.compressed_size as usize {
        return Err(ZstdError::UnexpectedEof);
    }
    let end: usize = h.header_len + h.compressed_size as usize;
    let out = read_streams(tree, slice_subrange(b, h.header_len, end), h)?;
    Ok((out, end))
}

} // verus!
