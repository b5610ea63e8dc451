//! The literals of a Zstandard block in each of the forms in which a writer may put them.
use vstd::arithmetic::div_mod::{lemma_fundamental_div_mod_converse, lemma_small_mod};
use vstd::prelude::*;

use crate::bytes::{lemma_pow256_values, pow256};
use crate::laws::huffman::{
    codable, four_fit, four_form, law_four_streams, law_stream, stream_form, weights_ok,
};
use crate::laws::numbers::{law_le, le_form};
use crate::laws::tree_forms::{law_tree_form, tree_form, tree_form_ok, TreeForm};
use crate::zstd::{literals_of, ZstdErrorView};
use crate::zstd_huffman::{tree_of, HuffmanView};
use crate::zstd_huffstream::{compressed_literals, streams_literals, treeless_literals};
use crate::zstd_literals::{literals_header, LiteralsBlockType, LiteralsHeader};

verus! {

/// Literals and the form they are written in; `format` says how wide the sizes before them are.
pub enum Literals {
    /// As they are.
    Raw { bytes: Seq<u8>, format: nat },
    /// One byte so many times.
    Rle { byte: u8, count: nat, format: nat },
    /// In the codes of a tree whose weights are written before them.
    Huffman { weights: Seq<u8>, form: TreeForm, max: nat, bytes: Seq<u8>, format: nat },
    /// In the codes of the tree of an earlier block.
    Treeless { weights: Seq<u8>, max: nat, bytes: Seq<u8>, format: nat },
}

/// What literals stand for.
pub open spec fn literals_content(l: Literals) -> Seq<u8> {
    match l {
        Literals::Raw { bytes, .. } => bytes,
        Literals::Rle { byte, count, .. } => Seq::new(count, |i: int| byte),
        Literals::Huffman { bytes, .. } => bytes,
        Literals::Treeless { bytes, .. } => bytes,
    }
}

/// The header of literals that are not compressed: the type in two bits, the format in one or two,
/// and their number in what is left of one, two or three bytes.
pub open spec fn plain_header_form(kind: nat, n: nat, format: nat) -> Seq<u8> {
    if format == 0 {
        le_form(kind + 8 * n, 1)
    } else if format == 1 {
        le_form(kind + 4 + 16 * n, 2)
    } else {
        le_form(kind + 12 + 16 * n, 3)
    }
}

/// Whether the format is one for literals that are not compressed, and holds their number.
pub open spec fn plain_fits(n: nat, format: nat) -> bool {
    ||| format == 0 && n < 32
    ||| format == 1 && n < 0x1000
    ||| format == 3 && n < 0x10_0000
}

/// The number above those that a size of a format can take: sizes are of 10, 10, 14 and 18 bits.
pub open spec fn size_limit(format: nat) -> nat {
    if format < 2 {
        0x400
    } else if format == 2 {
        0x4000
    } else {
        0x4_0000
    }
}

/// How many bytes the header of a format takes.
pub open spec fn header_width(format: nat) -> nat {
    if format < 2 {
        3
    } else {
        (format + 2) as nat
    }
}

/// The header of compressed literals: the type and the format in two bits each, the number of
/// literals, then how many bytes they take.
pub open spec fn packed_header_form(kind: nat, n: nat, size: nat, format: nat) -> Seq<u8> {
    le_form(kind + 4 * format + 16 * (n + size_limit(format) * size), header_width(format))
}

/// The codes of literals: in one stream in the format 0, in four in the others.
pub open spec fn codes_form(weights: Seq<u8>, max: nat, bytes: Seq<u8>, format: nat) -> Seq<u8> {
    if format == 0 {
        stream_form(weights, max, bytes)
    } else {
        four_form(weights, max, bytes)
    }
}

/// Whether compressed literals can be written so.
pub open spec fn codes_ok(
    weights: Seq<u8>,
    max: nat,
    bytes: Seq<u8>,
    format: nat,
    size: nat,
) -> bool {
    &&& format <= 3
    &&& weights_ok(weights, max)
    &&& codable(weights, bytes)
    &&& bytes.len() < size_limit(format)
    &&& size < size_limit(format)
    &&& format > 0 ==> four_fit(weights, max, bytes)
}

/// Literals in a block.
pub open spec fn literals_form(l: Literals) -> Seq<u8> {
    match l {
        Literals::Raw { bytes, format } => plain_header_form(0, bytes.len(), format) + bytes,
        Literals::Rle { byte, count, format } => plain_header_form(1, count, format) + seq![byte],
        Literals::Huffman { weights, form, max, bytes, format } => {
            let body = tree_form(weights, form) + codes_form(weights, max, bytes, format);
            packed_header_form(2, bytes.len(), body.len(), format) + body
        },
        Literals::Treeless { weights, max, bytes, format } => {
            let body = codes_form(weights, max, bytes, format);
            packed_header_form(3, bytes.len(), body.len(), format) + body
        },
    }
}

/// The tree that weights stand for.
pub open spec fn tree_with(weights: Seq<u8>) -> HuffmanView {
    tree_of(weights.drop_last())->Ok_0
}

/// Whether literals can be written so, behind blocks that leave the tree.
pub open spec fn literals_ok(l: Literals, tree: Option<HuffmanView>) -> bool {
    match l {
        Literals::Raw { bytes, format } => plain_fits(bytes.len(), format),
        Literals::Rle { byte, count, format } => plain_fits(count, format),
        Literals::Huffman { weights, form, max, bytes, format } => {
            let body = tree_form(weights, form) + codes_form(weights, max, bytes, format);
            codes_ok(weights, max, bytes, format, body.len()) && tree_form_ok(weights, form)
        },
        Literals::Treeless { weights, max, bytes, format } => {
            let body = codes_form(weights, max, bytes, format);
            codes_ok(weights, max, bytes, format, body.len()) && tree == Some(tree_with(weights))
        },
    }
}

/// The tree that literals leave.
pub open spec fn tree_after(l: Literals, tree: Option<HuffmanView>) -> Option<HuffmanView> {
    match l {
        Literals::Huffman { weights, .. } => Some(tree_with(weights)),
        _ => tree,
    }
}

proof fn lemma_first_byte(n: nat, k: nat)
    requires
        k > 0,
    ensures
        le_form(n, k).len() == k,
        le_form(n, k)[0] == n % 256,
{
    crate::laws::numbers::lemma_le_form_index(n, k, 0);
    lemma_pow256_values();
    assert(n / 1 == n);
}

proof fn lemma_plain_header(kind: nat, n: nat, format: nat, after: Seq<u8>)
    requires
        kind < 2,
        plain_fits(n, format),
    ensures
        literals_header(plain_header_form(kind, n, format) + after) == Ok::<
            LiteralsHeader,
            ZstdErrorView,
        >(
            LiteralsHeader {
                block_type: if kind == 0 {
                    LiteralsBlockType::Raw
                } else {
                    LiteralsBlockType::Rle
                },
                regenerated_size: n as u32,
                compressed_size: 0,
                streams: 1,
                header_len: plain_header_form(kind, n, format).len() as usize,
            },
        ),
{
    let f = plain_header_form(kind, n, format);
    let b = f + after;
    lemma_pow256_values();
    let (h, k) = if format == 0 {
        (kind + 8 * n, 1nat)
    } else if format == 1 {
        (kind + 4 + 16 * n, 2nat)
    } else {
        (kind + 12 + 16 * n, 3nat)
    };
    law_le(h, k);
    lemma_first_byte(h, k);
    lemma_small_mod(h, pow256(k));
    assert(b[0] == h % 256);
    assert(b.take(k as int) =~= f);
    assert((h % 256) % 4 == kind);
    if format == 0 {
        assert(h / 8 == n);
        assert((h % 256) / 4 % 4 == 0 || (h % 256) / 4 % 4 == 2);
    } else {
        assert(h / 16 == n);
        assert((h % 256) / 4 % 4 == format);
    }
}

proof fn lemma_packed_header(kind: nat, n: nat, size: nat, format: nat, after: Seq<u8>)
    requires
        kind == 2 || kind == 3,
        format <= 3,
        n < size_limit(format),
        size < size_limit(format),
    ensures
        literals_header(packed_header_form(kind, n, size, format) + after) == Ok::<
            LiteralsHeader,
            ZstdErrorView,
        >(
            LiteralsHeader {
                block_type: if kind == 2 {
                    LiteralsBlockType::Compressed
                } else {
                    LiteralsBlockType::Treeless
                },
                regenerated_size: n as u32,
                compressed_size: size as u32,
                streams: if format == 0 {
                    1
                } else {
                    4
                },
                header_len: header_width(format) as usize,
            },
        ),
        packed_header_form(kind, n, size, format).len() == header_width(format),
{
    let f = packed_header_form(kind, n, size, format);
    let b = f + after;
    let limit = size_limit(format);
    let k = header_width(format);
    lemma_pow256_values();
    let m = n + limit * size;
    let h = kind + 4 * format + 16 * m;
    assert(limit * size <= limit * (limit - 1)) by (nonlinear_arith)
        requires
            size <= limit - 1,
            limit > 0,
    ;
    assert(limit == 0x400 || limit == 0x4000 || limit == 0x4_0000);
    assert(h < pow256(k)) by {
        if format < 2 {
            assert(limit * (limit - 1) == 0x400 * 0x3ff);
        } else if format == 2 {
            assert(limit * (limit - 1) == 0x4000 * 0x3fff);
        } else {
            assert(limit * (limit - 1) == 0x4_0000 * 0x3_ffff);
        }
    }
    law_le(h, k);
    lemma_first_byte(h, k);
    lemma_small_mod(h, pow256(k));
    assert(b[0] == h % 256);
    assert(b.take(k as int) =~= f);
    assert((h % 256) % 4 == kind);
    assert((h % 256) / 4 % 4 == format);
    assert(h / 16 == m);
    lemma_fundamental_div_mod_converse(m as int, limit as int, size as int, n as int);
    lemma_small_mod(size, limit);
}

/// The codes of literals are read back.
proof fn lemma_codes(
    weights: Seq<u8>,
    max: nat,
    bytes: Seq<u8>,
    format: nat,
    h: LiteralsHeader,
)
    requires
        codes_ok(weights, max, bytes, format, h.compressed_size as nat),
        h.regenerated_size == bytes.len(),
        h.streams == (if format == 0 {
            1u8
        } else {
            4
        }),
    ensures
        streams_literals(tree_with(weights), codes_form(weights, max, bytes, format), h) == Ok::<
            Seq<u8>,
            ZstdErrorView,
        >(bytes),
{
    if format == 0 {
        law_stream(weights, max, bytes, seq![]);
        assert(Seq::<u8>::empty() + bytes =~= bytes);
    } else {
        law_four_streams(weights, max, bytes);
    }
}

proof fn lemma_pieces(head: Seq<u8>, body: Seq<u8>, after: Seq<u8>)
    ensures
        ({
            let b = head + body + after;
            &&& b == head + (body + after)
            &&& b.subrange(head.len() as int, (head.len() + body.len()) as int) == body
            &&& b.skip(head.len() as int) == body + after
            &&& (body + after).take(body.len() as int) == body
            &&& (body + after).skip(body.len() as int) == after
        }),
{
    let b = head + body + after;
    assert(b =~= head + (body + after));
    assert(b.subrange(head.len() as int, (head.len() + body.len()) as int) =~= body);
    assert(b.skip(head.len() as int) =~= body + after);
    assert((body + after).take(body.len() as int) =~= body);
    assert((body + after).skip(body.len() as int) =~= after);
}

proof fn lemma_huffman(
    weights: Seq<u8>,
    form: TreeForm,
    max: nat,
    bytes: Seq<u8>,
    format: nat,
    body: Seq<u8>,
    head: Seq<u8>,
    tree: Option<HuffmanView>,
    after: Seq<u8>,
)
    requires
        body == tree_form(weights, form) + codes_form(weights, max, bytes, format),
        head == packed_header_form(2, bytes.len(), body.len(), format),
        codes_ok(weights, max, bytes, format, body.len()),
        tree_form_ok(weights, form),
    ensures
        literals_of(head + body + after, tree) == Ok::<
            (Seq<u8>, int, Option<HuffmanView>),
            ZstdErrorView,
        >((bytes, (head + body).len() as int, Some(tree_with(weights)))),
{
    let b = head + body + after;
    let codes = codes_form(weights, max, bytes, format);
    lemma_pieces(head, body, after);
    lemma_packed_header(2, bytes.len(), body.len(), format, body + after);
    let h = literals_header(b)->Ok_0;
    let end = (head.len() + body.len()) as int;
    law_tree_form(weights, max, form, codes);
    lemma_pieces(seq![], tree_form(weights, form), codes);
    lemma_codes(weights, max, bytes, format, h);
    assert(compressed_literals(b) == Ok::<(Seq<u8>, int), ZstdErrorView>((bytes, end)));
}

proof fn lemma_treeless(
    weights: Seq<u8>,
    max: nat,
    bytes: Seq<u8>,
    format: nat,
    body: Seq<u8>,
    head: Seq<u8>,
    after: Seq<u8>,
)
    requires
        body == codes_form(weights, max, bytes, format),
        head == packed_header_form(3, bytes.len(), body.len(), format),
        codes_ok(weights, max, bytes, format, body.len()),
    ensures
        literals_of(head + body + after, Some(tree_with(weights))) == Ok::<
            (Seq<u8>, int, Option<HuffmanView>),
            ZstdErrorView,
        >((bytes, (head + body).len() as int, Some(tree_with(weights)))),
{
    let b = head + body + after;
    lemma_pieces(head, body, after);
    lemma_packed_header(3, bytes.len(), body.len(), format, body + after);
    let h = literals_header(b)->Ok_0;
    let end = (head.len() + body.len()) as int;
    lemma_codes(weights, max, bytes, format, h);
    assert(treeless_literals(b, tree_with(weights)) == Ok::<(Seq<u8>, int), ZstdErrorView>(
        (bytes, end),
    ));
}

proof fn lemma_raw(bytes: Seq<u8>, format: nat, tree: Option<HuffmanView>, after: Seq<u8>)
    requires
        plain_fits(bytes.len(), format),
    ensures
        literals_of(plain_header_form(0, bytes.len(), format) + bytes + after, tree) == Ok::<
            (Seq<u8>, int, Option<HuffmanView>),
            ZstdErrorView,
        >((bytes, (plain_header_form(0, bytes.len(), format) + bytes).len() as int, tree)),
{
    let head = plain_header_form(0, bytes.len(), format);
    lemma_pieces(head, bytes, after);
    lemma_plain_header(0, bytes.len(), format, bytes + after);
    lemma_header_len(0, bytes.len(), format);
}

proof fn lemma_header_len(kind: nat, n: nat, format: nat)
    ensures
        plain_header_form(kind, n, format).len() <= 3,
{
    law_le(kind + 8 * n, 1);
    law_le(kind + 4 + 16 * n, 2);
    law_le(kind + 12 + 16 * n, 3);
}

proof fn lemma_rle(byte: u8, count: nat, format: nat, tree: Option<HuffmanView>, after: Seq<u8>)
    requires
        plain_fits(count, format),
    ensures
        literals_of(plain_header_form(1, count, format) + seq![byte] + after, tree) == Ok::<
            (Seq<u8>, int, Option<HuffmanView>),
            ZstdErrorView,
        >(
            (
                Seq::new(count, |i: int| byte),
                (plain_header_form(1, count, format) + seq![byte]).len() as int,
                tree,
            ),
        ),
{
    let head = plain_header_form(1, count, format);
    lemma_pieces(head, seq![byte], after);
    lemma_plain_header(1, count, format, seq![byte] + after);
    lemma_header_len(1, count, format);
    let body = seq![byte] + after;
    assert(body[0] == byte);
    assert(Seq::new(count, |i: int| body[0]) =~= Seq::new(count, |i: int| byte));
}

/// The literals of a block are read back in whichever form they are written, whatever follows them,
/// and later blocks may use the tree that came with them.
pub proof fn law_literals(l: Literals, tree: Option<HuffmanView>, after: Seq<u8>)
    requires
        literals_ok(l, tree),
    ensures
        literals_of(literals_form(l) + after, tree) == Ok::<
            (Seq<u8>, int, Option<HuffmanView>),
            ZstdErrorView,
        >((literals_content(l), literals_form(l).len() as int, tree_after(l, tree))),
{
    match l {
        Literals::Raw { bytes, format } => lemma_raw(bytes, format, tree, after),
        Literals::Rle { byte, count, format } => lemma_rle(byte, count, format, tree, after),
        Literals::Huffman { weights, form, max, bytes, format } => {
            let body = tree_form(weights, form) + codes_form(weights, max, bytes, format);
            let head = packed_header_form(2, bytes.len(), body.len(), format);
            lemma_huffman(weights, form, max, bytes, format, body, head, tree, after);
        },
        Literals::Treeless { weights, max, bytes, format } => {
            let body = codes_form(weights, max, bytes, format);
            let head = packed_header_form(3, bytes.len(), body.len(), format);
            lemma_treeless(weights, max, bytes, format, body, head, after);
        },
    }
}

} // verus!
