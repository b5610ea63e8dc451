//! The Huffman trees of Zstandard.
use vstd::arithmetic::power2::{lemma2_to64, lemma_pow2_unfold, pow2};
use vstd::prelude::*;
use vstd::slice::slice_subrange;

use crate::zstd::{ZstdError, ZstdErrorView};
use crate::zstd_fse::{
    back_at, back_bits, build_table, description_at, high_bit, lemma_top_bit, lemma_top_bit_bound,
    read_description, table_of, top_bit, two_to, BackReader, FseTable, FseTableView,
};

verus! {

/// The longest code.
pub const MAX_CODE_BITS: u32 = 11;

/// A symbol and the width of its code.
#[derive(Clone, Copy, Debug)]
pub struct HuffmanEntry {
    pub symbol: u8,
    pub nb_bits: u8,
}

/// A Huffman tree as a table: what the next `max_bits` bits of a stream start with.
#[derive(Clone, Debug)]
pub struct HuffmanTree {
    pub max_bits: u8,
    pub entries: Vec<HuffmanEntry>,
}

/// What a [`HuffmanTree`] says.
pub struct HuffmanView {
    pub max_bits: u8,
    pub entries: Seq<HuffmanEntry>,
}

impl View for HuffmanTree {
    type V = HuffmanView;

    open spec fn view(&self) -> HuffmanView {
        HuffmanView { max_bits: self.max_bits, entries: self.entries@ }
    }
}

impl HuffmanView {
    /// There is an entry for every number of `max_bits` bits, and no code is longer than that.
    pub open spec fn wf(self) -> bool {
        &&& 1 <= self.max_bits <= 11
        &&& self.entries.len() == pow2(self.max_bits as nat)
        &&& forall|i: int|
            0 <= i < self.entries.len() ==> 1 <= (#[trigger] self.entries[i]).nb_bits
                <= self.max_bits
    }
}

/// The share of the codes that a symbol of this weight takes.
pub open spec fn part(w: u8) -> nat {
    if w == 0 {
        0
    } else {
        pow2((w - 1) as nat)
    }
}

/// What the symbols take together.
pub open spec fn parts(weights: Seq<u8>) -> nat
    decreases weights.len(),
{
    if weights.len() == 0 {
        0
    } else {
        parts(weights.drop_last()) + part(weights.last())
    }
}

/// The entries of the symbols of weight `w`, in the order of the symbols.
pub open spec fn entries_of_weight(weights: Seq<u8>, w: u8, max_bits: int) -> Seq<HuffmanEntry>
    decreases weights.len(),
{
    if weights.len() == 0 {
        seq![]
    } else {
        let s = (weights.len() - 1) as u8;
        let before = entries_of_weight(weights.drop_last(), w, max_bits);
        if weights.last() == w {
            before + Seq::new(
                part(w),
                |i: int| HuffmanEntry { symbol: s, nb_bits: (max_bits + 1 - w) as u8 },
            )
        } else {
            before
        }
    }
}

/// The entries of the symbols of weights 1 to `top`: the longest codes first.
pub open spec fn entries_to(weights: Seq<u8>, top: nat, max_bits: int) -> Seq<HuffmanEntry>
    decreases top,
{
    if top == 0 {
        seq![]
    } else {
        entries_to(weights, (top - 1) as nat, max_bits) + entries_of_weight(
            weights,
            top as u8,
            max_bits,
        )
    }
}

/// The tree for the weights of all symbols but the last one, whose weight follows: together the
/// symbols take a power of two.
pub open spec fn tree_of(weights: Seq<u8>) -> Result<HuffmanView, ZstdErrorView> {
    let sum = parts(weights);
    let max_bits = top_bit(sum) + 1;
    let left = pow2(max_bits) - sum;
    let last = top_bit(left as nat) + 1;
    if weights.len() > 255 || sum == 0 || max_bits > MAX_CODE_BITS || left != pow2(
        (last - 1) as nat,
    ) {
        Err(ZstdErrorView::UnexpectedEof)
    } else {
        Ok(
            HuffmanView {
                max_bits: max_bits as u8,
                entries: entries_to(weights.push(last as u8), max_bits, max_bits as int),
            },
        )
    }
}

/// Weights of four bits each, the first in the upper half of its byte.
pub open spec fn nibbles(b: Seq<u8>, n: nat) -> Seq<u8> {
    Seq::new(
        n,
        |i: int|
            if i % 2 == 0 {
                (b[i / 2] / 16) as u8
            } else {
                (b[i / 2] % 16) as u8
            },
    )
}

/// The weights that two states by turns give until the stream has not enough bits for the next
/// state; `a` is the state whose turn it is.
pub open spec fn coded_weights(
    table: FseTableView,
    s: Seq<u8>,
    left: int,
    a: int,
    b: int,
    have: Seq<u8>,
) -> Result<Seq<u8>, ZstdErrorView>
    decreases 256 - have.len(),
{
    let e = table.entries[a];
    let with = have.push(e.symbol);
    if with.len() > 255 {
        Err(ZstdErrorView::UnexpectedEof)
    } else {
        match back_at(s, left, e.nb_bits as nat) {
            Err(_) => Ok(with.push(table.entries[b].symbol)),
            Ok((v, rest)) => coded_weights(table, s, rest, b, e.base_state + v, with),
        }
    }
}

/// The weights in a stream behind the description of its table.
pub open spec fn fse_weights(b: Seq<u8>) -> Result<Seq<u8>, ZstdErrorView> {
    match description_at(b, 6, 255) {
        Err(e) => Err(e),
        Ok((log, shares, n)) => match table_of(log, shares) {
            Err(e) => Err(e),
            Ok(table) => {
                let s = b.skip(n);
                match back_bits(s) {
                    Err(e) => Err(e),
                    Ok(bits) => match back_at(s, bits, log as nat) {
                        Err(e) => Err(e),
                        Ok((first, p)) => match back_at(s, p, log as nat) {
                            Err(e) => Err(e),
                            Ok((second, q)) => coded_weights(
                                table,
                                s,
                                q,
                                first,
                                second,
                                seq![],
                            ),
                        },
                    },
                }
            },
        },
    }
}

/// The tree that a description gives, and how many bytes the description takes.
pub open spec fn tree_at(b: Seq<u8>) -> Result<(HuffmanView, int), ZstdErrorView> {
    if b.len() == 0 {
        Err(ZstdErrorView::UnexpectedEof)
    } else if b[0] >= 128 {
        let n = b[0] - 127;
        let end = 1 + (n + 1) / 2;
        if b.len() < end {
            Err(ZstdErrorView::UnexpectedEof)
        } else {
            match tree_of(nibbles(b.skip(1), n as nat)) {
                Err(e) => Err(e),
                Ok(t) => Ok((t, end)),
            }
        }
    } else {
        let end = 1 + b[0] as int;
        if b.len() < end {
            Err(ZstdErrorView::UnexpectedEof)
        } else {
            match fse_weights(b.subrange(1, end)) {
                Err(e) => Err(e),
                Ok(weights) => match tree_of(weights) {
                    Err(e) => Err(e),
                    Ok(t) => Ok((t, end)),
                },
            }
        }
    }
}

proof fn lemma_entries_step(weights: Seq<u8>, top: nat, max_bits: int)
    requires
        weights.len() > 0,
        top <= 255,
    ensures
        entries_to(weights, top, max_bits).len() == entries_to(
            weights.drop_last(),
            top,
            max_bits,
        ).len() + if 1 <= weights.last() <= top {
            part(weights.last())
        } else {
            0
        },
    decreases top,
{
    if top > 0 {
        lemma_entries_step(weights, (top - 1) as nat, max_bits);
    }
}

/// The entries are as many as the symbols take together.
proof fn lemma_entries_len(weights: Seq<u8>, top: nat, max_bits: int)
    requires
        top <= 255,
        forall|i: int| 0 <= i < weights.len() ==> #[trigger] weights[i] <= top,
    ensures
        entries_to(weights, top, max_bits).len() == parts(weights),
    decreases weights.len(),
{
    if weights.len() == 0 {
        lemma_no_entries(weights, top, max_bits);
    } else {
        lemma_entries_step(weights, top, max_bits);
        assert forall|i: int| 0 <= i < weights.drop_last().len() implies #[trigger] weights.drop_last()[i]
            <= top by {
            assert(weights.drop_last()[i] == weights[i]);
        }
        lemma_entries_len(weights.drop_last(), top, max_bits);
        assert(weights.last() == weights[weights.len() - 1]);
    }
}

proof fn lemma_no_entries(weights: Seq<u8>, top: nat, max_bits: int)
    requires
        weights.len() == 0,
    ensures
        entries_to(weights, top, max_bits).len() == 0,
    decreases top,
{
    if top > 0 {
        lemma_no_entries(weights, (top - 1) as nat, max_bits);
    }
}

/// No symbol takes more than all of the first `n` and more.
proof fn lemma_parts(weights: Seq<u8>, i: int, n: int)
    requires
        0 <= i < n <= weights.len(),
    ensures
        part(weights[i]) <= parts(weights.take(n)) <= parts(weights),
    decreases weights.len(),
{
    let shorter = weights.drop_last();
    if n == weights.len() {
        assert(weights.take(n) =~= weights);
        if i < n - 1 {
            lemma_parts(shorter, i, n - 1);
        } else {
            assert(weights.last() == weights[i]);
        }
    } else {
        lemma_parts(shorter, i, n);
        assert(shorter.take(n) =~= weights.take(n));
        assert(shorter[i] == weights[i]);
    }
}

proof fn lemma_too_wide(n: nat)
    requires
        n >= 2048,
    ensures
        top_bit(n) + 1 > 11,
{
    lemma_top_bit(n);
    lemma2_to64();
    if top_bit(n) + 1 < 11 {
        vstd::arithmetic::power2::lemma_pow2_strictly_increases((top_bit(n) + 1) as nat, 11);
    }
}

/// What the symbols take together; nothing if that is more than trees can have.
fn sum_parts(weights: &Vec<u8>) -> (r: Option<u32>)
    ensures
        match r {
            Some(n) => n == parts(weights@) && n < 2048 && forall|i: int|
                0 <= i < weights@.len() ==> #[trigger] weights@[i] <= 11,
            None => parts(weights@) >= 2048,
        },
{
    let mut sum: u32 = 0;
    let mut i: usize = 0;
    proof {
        lemma2_to64();
        assert(weights@.take(0) =~= seq![]);
    }
    while i < weights.len()
        invariant
            i <= weights@.len(),
            sum == parts(weights@.take(i as int)),
            sum < 2048,
            forall|j: int| 0 <= j < i ==> #[trigger] weights@[j] <= 11,
        decreases weights@.len() - i,
    {
        let w: u8 = weights[i];
        proof {
            lemma2_to64();
            lemma_parts(weights@, i as int, i + 1);
            assert(weights@.take(i + 1).drop_last() =~= weights@.take(i as int));
        }
        if w > 11 {
            proof {
                if w > 12 {
                    vstd::arithmetic::power2::lemma_pow2_strictly_increases(11, (w - 1) as nat);
                }
            }
            return None;
        }
        let p: u32 = if w == 0 {
            0
        } else {
            two_to((w - 1) as u32)
        };
        proof {
            if 1 <= w < 11 {
                vstd::arithmetic::power2::lemma_pow2_strictly_increases((w - 1) as nat, 10);
            }
        }
        sum = sum + p;
        i = i + 1;
        if sum >= 2048 {
            return None;
        }
    }
    proof {
        assert(weights@.take(i as int) =~= weights@);
    }
    Some(sum)
}

/// The entries of the symbols of weights 1 to `max_bits`.
fn list_entries(weights: &Vec<u8>, max_bits: u8) -> (r: Vec<HuffmanEntry>)
    requires
        1 <= max_bits <= 11,
        weights@.len() <= 256,
    ensures
        r@ == entries_to(weights@, max_bits as nat, max_bits as int),
        forall|i: int| 0 <= i < r@.len() ==> 1 <= (#[trigger] r@[i]).nb_bits <= max_bits,
{
    let mut out: Vec<HuffmanEntry> = Vec::new();
    let mut w: u8 = 0;
    while w < max_bits
        invariant
            w <= max_bits <= 11,
            weights@.len() <= 256,
            out@ == entries_to(weights@, w as nat, max_bits as int),
            forall|i: int| 0 <= i < out@.len() ==> 1 <= (#[trigger] out@[i]).nb_bits <= max_bits,
        decreases max_bits - w,
    {
        w = w + 1;
        let ghost before = out@;
        let count: u32 = two_to((w - 1) as u32);
        let mut s: usize = 0;
        proof {
            assert(weights@.take(0) =~= seq![]);
            assert(out@ =~= before + entries_of_weight(weights@.take(0), w, max_bits as int));
        }
        while s < weights.len()
            invariant
                s <= weights@.len() <= 256,
                1 <= w <= max_bits <= 11,
                count == part(w),
                out@ == before + entries_of_weight(weights@.take(s as int), w, max_bits as int),
                forall|i: int|
                    0 <= i < out@.len() ==> 1 <= (#[trigger] out@[i]).nb_bits <= max_bits,
            decreases weights@.len() - s,
        {
            let ghost so_far = entries_of_weight(weights@.take(s as int), w, max_bits as int);
            proof {
                assert(weights@.take(s + 1).drop_last() =~= weights@.take(s as int));
            }
            if weights[s] == w {
                let e = HuffmanEntry { symbol: s as u8, nb_bits: max_bits + 1 - w };
                let mut k: u32 = 0;
                let ghost at = out@;
                proof {
                    assert(at =~= at + Seq::new(0, |i: int| e));
                }
                while k < count
                    invariant
                        k <= count,
                        1 <= w <= max_bits <= 11,
                        e.nb_bits == max_bits + 1 - w,
                        out@ == at + Seq::new(k as nat, |i: int| e),
                        forall|i: int|
                            0 <= i < out@.len() ==> 1 <= (#[trigger] out@[i]).nb_bits <= max_bits,
                    decreases count - k,
                {
                    out.push(e);
                    k = k + 1;
                    proof {
                        assert(out@ =~= at + Seq::new(k as nat, |i: int| e));
                    }
                }
                proof {
                    assert(out@ =~= before + (so_far + Seq::new(
                        part(w),
                        |i: int|
                            HuffmanEntry { symbol: s as u8, nb_bits: (max_bits + 1 - w) as u8 },
                    )));
                }
            }
            s = s + 1;
        }
        proof {
            assert(weights@.take(s as int) =~= weights@);
        }
    }
    out
}

/// Builds the tree for the weights of all symbols but the last one.
fn build_tree(weights: Vec<u8>) -> (r: Result<HuffmanTree, ZstdError>)
    ensures
        match (r, tree_of(weights@)) {
            (Ok(v), Ok(w)) => v@ == w && w.wf(),
            (Err(x), Err(y)) => x@ == y,
            _ => false,
        },
{
    let mut weights = weights;
    let ghost given = weights@;
    if weights.len() > 255 {
        return Err(ZstdError::UnexpectedEof);
    }
    let sum: u32 = match sum_parts(&weights) {
        None => {
            proof {
                lemma_too_wide(parts(weights@));
            }
            return Err(ZstdError::UnexpectedEof);
        },
        Some(n) => n,
    };
    if sum == 0 {
        return Err(ZstdError::UnexpectedEof);
    }
    proof {
        lemma2_to64();
        lemma_top_bit(sum as nat);
        lemma_top_bit_bound(sum as nat, 10);
    }
    let max_bits: u32 = high_bit(sum) + 1;
    let whole: u32 = two_to(max_bits);
    let left: u32 = whole - sum;
    proof {
        lemma_pow2_unfold(max_bits as nat);
        lemma_top_bit(left as nat);
        lemma_top_bit_bound(left as nat, (max_bits - 1) as nat);
    }
    let last: u32 = high_bit(left) + 1;
    if left != two_to(last - 1) {
        return Err(ZstdError::UnexpectedEof);
    }
    weights.push(last as u8);
    proof {
        assert(weights@.drop_last() =~= given);
        assert forall|i: int| 0 <= i < weights@.len() implies #[trigger] weights@[i]
            <= max_bits by {
            if i < given.len() {
                lemma_parts(given, i, given.len() as int);
                assert(given.take(given.len() as int) =~= given);
                if weights@[i] > max_bits {
                    if weights@[i] - 1 > max_bits {
                        vstd::arithmetic::power2::lemma_pow2_strictly_increases(
                            max_bits as nat,
                            (weights@[i] - 1) as nat,
                        );
                    }
                }
            }
        }
        lemma_entries_len(weights@, max_bits as nat, max_bits as int);
    }
    let entries = list_entries(&weights, max_bits as u8);
    Ok(HuffmanTree { max_bits: max_bits as u8, entries })
}

/// Reads `n` weights of four bits each.
fn read_nibbles(b: &[u8], n: usize) -> (r: Vec<u8>)
    requires
        (n + 1) / 2 <= b@.len(),
        n <= 255,
    ensures
        r@ == nibbles(b@, n as nat),
{
    let mut out: Vec<u8> = Vec::new();
    let mut i: usize = 0;
    while i < n
        invariant
            i <= n <= 255,
            (n + 1) / 2 <= b@.len(),
            out@ == nibbles(b@, i as nat),
        decreases n - i,
    {
        let x: u8 = b[i / 2];
        if i % 2 == 0 {
            out.push(x / 16);
        } else {
            out.push(x % 16);
        }
        i = i + 1;
        proof {
            assert(out@ =~= nibbles(b@, i as nat));
        }
    }
    out
}

/// The weights that two states by turns give.
fn read_coded(table: &FseTable, r: &mut BackReader, first: usize, second: usize) -> (v: Result<
    Vec<u8>,
    ZstdError,
>)
    requires
        table@.wf(255),
        old(r).wf(),
        first < table@.entries.len(),
        second < table@.entries.len(),
    ensures
        match (
            v,
            coded_weights(
                table@,
                old(r).s@,
                old(r).left(),
                first as int,
                second as int,
                seq![],
            ),
        ) {
            (Ok(x), Ok(y)) => x@ == y,
            (Err(x), Err(y)) => x@ == y,
            _ => false,
        },
{
    let mut out: Vec<u8> = Vec::new();
    let mut a: usize = first;
    let mut b: usize = second;
    let ghost whole = coded_weights(
        table@,
        r.s@,
        r.left(),
        first as int,
        second as int,
        seq![],
    );
    proof {
        assert(out@ =~= seq![]);
    }
    loop
        invariant
            table@.wf(255),
            r.wf(),
            r.s == old(r).s,
            a < table@.entries.len(),
            b < table@.entries.len(),
            out@.len() <= 255,
            whole == coded_weights(table@, r.s@, r.left(), a as int, b as int, out@),
            whole == coded_weights(
                table@,
                old(r).s@,
                old(r).left(),
                first as int,
                second as int,
                seq![],
            ),
        decreases 256 - out@.len(),
    {
        let e = table.entries[a];
        assert(table@.entries[a as int] == e);
        assert(table@.entries.len() == table.entries.len());
        out.push(e.symbol);
        if out.len() > 255 {
            return Err(ZstdError::UnexpectedEof);
        }
        match r.read(e.nb_bits as u32) {
            Err(_) => {
                out.push(table.entries[b].symbol);
                return Ok(out);
            },
            Ok(v) => {
                a = b;
                b = e.base_state as usize + v as usize;
            },
        }
    }
}

/// Reads the weights in a stream behind the description of its table.
fn read_fse_weights(b: &[u8]) -> (r: Result<Vec<u8>, ZstdError>)
    ensures
        match (r, fse_weights(b@)) {
            (Ok(x), Ok(y)) => x@ == y,
            (Err(x), Err(y)) => x@ == y,
            _ => false,
        },
{
    let (log, shares, n) = read_description(b, 6, 255)?;
    let table = build_table(log, &shares)?;
    let s = slice_subrange(b, n, b.len());
    proof {
        assert(s@ =~= b@.skip(n as int));
    }
    let mut r = BackReader::new(s)?;
    let first: u64 = r.read(log)?;
    let second: u64 = r.read(log)?;
    read_coded(&table, &mut r, first as usize, second as usize)
}

/// Reads the description of a Huffman tree: the tree, and how many bytes the description takes.
pub fn parse_huffman_tree(b: &[u8]) -> (r: Result<(HuffmanTree, usize), ZstdError>)
    ensures
        match (r, tree_at(b@)) {
            (Ok(v), Ok(w)) => v.0@ == w.0 && v.1 == w.1 && v.1 <= b@.len() && w.0.wf(),
            (Err(x), Err(y)) => x@ == y,
            _ => false,
        },
{
    if b.len() == 0 {
        return Err(ZstdError::UnexpectedEof);
    }
    let first: usize = b[0] as usize;
    if first >= 128 {
        let n: usize = first - 127;
        let end: usize = 1 + (n + 1) / 2;
        if b.len() < end {
            return Err(ZstdError::UnexpectedEof);
        }
        let t = slice_subrange(b, 1, b.len());
        proof {
            assert(t@ =~= b@.skip(1));
        }
        let tree = build_tree(read_nibbles(t, n))?;
        Ok((tree, end))
    } else {
        let end: usize = 1 + first;
        if b.len() < end {
            return Err(ZstdError::UnexpectedEof);
        }
        let weights = read_fse_weights(slice_subrange(b, 1, end))?;
        let tree = build_tree(weights)?;
        Ok((tree, end))
    }
}

} // verus!
