//! Finite state entropy: the tables of Zstandard, and the bit streams that are read backwards.
use vstd::arithmetic::power2::{lemma2_to64, lemma_pow2_unfold, pow2};
use vstd::prelude::*;

use crate::bitreader::BitReader;
use crate::bytes::{bits_at, lemma_bits_bound, read_bits};
use crate::zstd::{ZstdError, ZstdErrorView};

verus! {

/// The number of the highest bit that is set in `n`.
pub open spec fn top_bit(n: nat) -> nat
    decreases n,
{
    if n < 2 {
        0
    } else {
        1 + top_bit(n / 2)
    }
}

/// The highest bit of `n` says between which powers of two it lies.
pub proof fn lemma_top_bit(n: nat)
    requires
        n > 0,
    ensures
        pow2(top_bit(n)) <= n < pow2(top_bit(n) + 1),
    decreases n,
{
    lemma2_to64();
    if n >= 2 {
        lemma_top_bit(n / 2);
        lemma_pow2_unfold(top_bit(n));
        lemma_pow2_unfold(top_bit(n) + 1);
    }
}

/// A number of at most `k + 1` bits has its highest bit at `k` or below.
pub proof fn lemma_top_bit_bound(n: nat, k: nat)
    requires
        n < pow2(k + 1),
    ensures
        top_bit(n) <= k,
    decreases k,
{
    lemma2_to64();
    if n >= 2 {
        lemma_pow2_unfold(k + 1);
        if k == 0 {
            assert(pow2(1) == 2);
        } else {
            lemma_top_bit_bound(n / 2, (k - 1) as nat);
        }
    }
}

/// The number of the highest bit that is set.
pub fn high_bit(n: u32) -> (r: u32)
    ensures
        r == top_bit(n as nat),
        r < 32,
{
    proof {
        lemma2_to64();
        lemma_top_bit_bound(n as nat, 31);
    }
    let mut m: u32 = n;
    let mut r: u32 = 0;
    while m >= 2
        invariant
            r + top_bit(m as nat) == top_bit(n as nat),
            top_bit(n as nat) < 32,
        decreases m,
    {
        m = m / 2;
        r = r + 1;
    }
    r
}

/// Two to the power `e`.
pub fn two_to(e: u32) -> (r: u32)
    requires
        e <= 16,
    ensures
        r == pow2(e as nat),
        1 <= r <= 0x1_0000,
{
    proof {
        lemma2_to64();
    }
    let mut r: u32 = 1;
    let mut i: u32 = 0;
    while i < e
        invariant
            i <= e <= 16,
            r == pow2(i as nat),
            i <= 0 ==> r <= 1,
            r <= 0x1_0000,
        decreases e - i,
    {
        proof {
            lemma_pow2_unfold((i + 1) as nat);
            lemma2_to64();
            vstd::arithmetic::power2::lemma_pow2_strictly_increases(i as nat, 16);
            if i + 1 < 16 {
                vstd::arithmetic::power2::lemma_pow2_strictly_increases((i + 1) as nat, 16);
            }
        }
        r = r * 2;
        i = i + 1;
    }
    proof {
        if 0 < e {
            vstd::arithmetic::power2::lemma_pow2_strictly_increases(0, e as nat);
        }
    }
    r
}

/// A stream of bits that is read from its end. The highest set bit of the last byte marks the end
/// and is not part of the stream.
pub struct BackReader<'a> {
    pub s: &'a [u8],
    pub byte: usize,
    pub shift: u8,
}

/// How many bits a backward stream holds.
pub open spec fn back_bits(s: Seq<u8>) -> Result<int, ZstdErrorView> {
    if s.len() == 0 || s.last() == 0 {
        Err(ZstdErrorView::UnexpectedEof)
    } else {
        Ok(8 * (s.len() - 1) + top_bit(s.last() as nat))
    }
}

/// The next `n` bits of a backward stream of which `left` bits are left, and how many are left then.
pub open spec fn back_at(s: Seq<u8>, left: int, n: nat) -> Result<(int, int), ZstdErrorView> {
    if n > left {
        Err(ZstdErrorView::UnexpectedEof)
    } else {
        Ok((bits_at(s, left - n, n) as int, left - n))
    }
}

/// The next `n` bits, with zeros in the place of those beyond the stream's beginning.
pub open spec fn peek_at(s: Seq<u8>, left: int, n: nat) -> int {
    if n <= left {
        bits_at(s, left - n, n) as int
    } else {
        (bits_at(s, 0, left as nat) * pow2((n - left) as nat)) as int
    }
}

impl<'a> BackReader<'a> {
    /// How many bits are left.
    pub open spec fn left(&self) -> int {
        8 * self.byte + self.shift
    }

    /// The bits left are bits of the stream.
    pub open spec fn wf(&self) -> bool {
        self.shift < 8 && self.left() <= 8 * self.s@.len()
    }

    /// A reader at the end of a stream.
    pub fn new(s: &'a [u8]) -> (r: Result<BackReader<'a>, ZstdError>)
        ensures
            match (r, back_bits(s@)) {
                (Ok(v), Ok(w)) => v.wf() && v.s == s && v.left() == w,
                (Err(x), Err(y)) => x@ == y,
                _ => false,
            },
    {
        let n: usize = s.len();
        if n == 0 {
            return Err(ZstdError::UnexpectedEof);
        }
        let last: u8 = s[n - 1];
        if last == 0 {
            return Err(ZstdError::UnexpectedEof);
        }
        proof {
            lemma2_to64();
            lemma_top_bit_bound(last as nat, 7);
        }
        let h: u32 = high_bit(last as u32);
        Ok(BackReader { s, byte: n - 1, shift: h as u8 })
    }

    /// Whether `n` bits are left.
    pub fn has(&self, n: u32) -> (r: bool)
        requires
            self.wf(),
            n <= 64,
        ensures
            r == (n <= self.left()),
    {
        if self.byte >= 8 {
            true
        } else {
            n <= 8 * self.byte as u32 + self.shift as u32
        }
    }

    /// Whether no bits are left.
    pub fn is_empty(&self) -> (r: bool)
        ensures
            r == (self.left() == 0),
    {
        self.byte == 0 && self.shift == 0
    }

    fn back(&mut self, n: u32)
        requires
            old(self).wf(),
            n <= 64,
            n <= old(self).left(),
        ensures
            final(self).wf(),
            final(self).s == old(self).s,
            final(self).left() == old(self).left() - n,
    {
        let sh: u32 = self.shift as u32;
        if n <= sh {
            self.shift = (sh - n) as u8;
        } else {
            let need: u32 = n - sh;
            let bytes: u32 = (need + 7) / 8;
            self.byte = self.byte - bytes as usize;
            self.shift = (bytes * 8 - need) as u8;
        }
    }

    /// Reads `n` bits.
    pub fn read(&mut self, n: u32) -> (r: Result<u64, ZstdError>)
        requires
            old(self).wf(),
            n <= 32,
        ensures
            final(self).wf(),
            final(self).s == old(self).s,
            final(self).left() <= old(self).left(),
            match (r, back_at(old(self).s@, old(self).left(), n as nat)) {
                (Ok(v), Ok(w)) => v == w.0 && final(self).left() == w.1 && v < pow2(n as nat)
                    <= 0x1_0000_0000,
                (Err(x), Err(y)) => x@ == y,
                _ => false,
            },
    {
        if !self.has(n) {
            return Err(ZstdError::UnexpectedEof);
        }
        self.back(n);
        let v: u64 = read_bits(self.s, self.byte, self.shift, n);
        proof {
            lemma_bits_bound(self.s@, self.left(), n as nat);
            lemma2_to64();
            if n < 32 {
                vstd::arithmetic::power2::lemma_pow2_strictly_increases(n as nat, 32);
            }
        }
        Ok(v)
    }

    /// The next `n` bits, with zeros in the place of those beyond the stream's beginning.
    pub fn peek(&self, n: u32) -> (r: u32)
        requires
            self.wf(),
            n <= 16,
        ensures
            r == peek_at(self.s@, self.left(), n as nat),
            r < pow2(n as nat),
    {
        if self.has(n) {
            let mut c = BackReader { s: self.s, byte: self.byte, shift: self.shift };
            c.back(n);
            proof {
                lemma_bits_bound(self.s@, c.left(), n as nat);
                lemma2_to64();
                if n < 16 {
                    vstd::arithmetic::power2::lemma_pow2_strictly_increases(n as nat, 16);
                }
            }
            read_bits(c.s, c.byte, c.shift, n) as u32
        } else {
            let have: u32 = 8 * self.byte as u32 + self.shift as u32;
            let v: u64 = read_bits(self.s, 0, 0, have);
            let w: u32 = two_to(n - have);
            proof {
                lemma_bits_bound(self.s@, 0, have as nat);
                vstd::arithmetic::power2::lemma_pow2_adds(have as nat, (n - have) as nat);
                lemma2_to64();
                if n < 16 {
                    vstd::arithmetic::power2::lemma_pow2_strictly_increases(n as nat, 16);
                }
                let a = v as int;
                let p = pow2(have as nat) as int;
                let q = w as int;
                assert(a * q < p * q) by (nonlinear_arith)
                    requires
                        0 <= a < p,
                        q >= 1,
                ;
            }
            v as u32 * w
        }
    }

    /// Drops `n` bits.
    pub fn drop_bits(&mut self, n: u32) -> (r: bool)
        requires
            old(self).wf(),
            n <= 64,
        ensures
            final(self).wf(),
            final(self).s == old(self).s,
            r == (n <= old(self).left()),
            r ==> final(self).left() == old(self).left() - n,
    {
        if !self.has(n) {
            return false;
        }
        self.back(n);
        true
    }
}

/// A cell of a decoding table.
#[derive(Clone, Copy, Debug)]
pub struct FseEntry {
    pub symbol: u8,
    pub nb_bits: u8,
    pub base_state: u16,
}

/// A decoding table: a cell for each state.
#[derive(Clone, Debug)]
pub struct FseTable {
    pub accuracy_log: u8,
    pub entries: Vec<FseEntry>,
}

/// What a [`FseTable`] says.
pub struct FseTableView {
    pub accuracy_log: u8,
    pub entries: Seq<FseEntry>,
}

impl View for FseTable {
    type V = FseTableView;

    open spec fn view(&self) -> FseTableView {
        FseTableView { accuracy_log: self.accuracy_log, entries: self.entries@ }
    }
}

impl FseTableView {
    /// There are two to the power of the accuracy log states, every next state is one of them, and
    /// every symbol is at most `max`.
    pub open spec fn wf(self, max: int) -> bool {
        &&& self.accuracy_log <= 9
        &&& self.entries.len() == pow2(self.accuracy_log as nat)
        &&& forall|i: int|
            0 <= i < self.entries.len() ==> (#[trigger] self.entries[i]).base_state + pow2(
                self.entries[i].nb_bits as nat,
            ) <= self.entries.len() && self.entries[i].nb_bits <= 9 && self.entries[i].symbol <= max
    }
}

/// One value of a description of probabilities, and the bit behind it: `remaining` is how much
/// probability is still to be given out. A small value has one bit less than a large one.
pub open spec fn value_at(c: Seq<u8>, p: int, remaining: nat) -> Result<
    (int, int),
    ZstdErrorView,
> {
    let width = top_bit(remaining + 1) + 1;
    let low = bits_at(c, p, (width - 1) as nat);
    let full = bits_at(c, p, width);
    let half = pow2((width - 1) as nat);
    let spare = pow2(width) - 1 - (remaining + 1);
    if p + width - 1 > 8 * c.len() {
        Err(ZstdErrorView::UnexpectedEof)
    } else if low < spare {
        Ok((low as int, p + width - 1))
    } else if p + width > 8 * c.len() {
        Err(ZstdErrorView::UnexpectedEof)
    } else if full >= half {
        Ok((full - spare, p + width))
    } else {
        Ok((full as int, p + width))
    }
}

/// How many zeros follow a zero, in groups of two bits: three says that another group follows.
pub open spec fn zeros_at(c: Seq<u8>, p: int) -> Result<(nat, int), ZstdErrorView>
    decreases 8 * c.len() - p,
{
    if p + 2 > 8 * c.len() {
        Err(ZstdErrorView::UnexpectedEof)
    } else {
        let n = bits_at(c, p, 2);
        if n != 3 {
            Ok((n, p + 2))
        } else {
            match zeros_at(c, p + 2) {
                Err(e) => Err(e),
                Ok((more, q)) => Ok((more + 3, q)),
            }
        }
    }
}

/// `n` zeros.
pub open spec fn zeros(n: nat) -> Seq<i16> {
    Seq::new(n, |i: int| 0i16)
}

/// The probabilities from bit `p` on, behind those in `have`, as multiples of one share; `-1`
/// stands for less than one share. They add up to `remaining`.
pub open spec fn shares_at(c: Seq<u8>, p: int, remaining: nat, have: Seq<i16>) -> Result<
    (Seq<i16>, int),
    ZstdErrorView,
>
    decreases 8 * c.len() - p,
{
    if remaining == 0 {
        Ok((have, p))
    } else {
        match value_at(c, p, remaining) {
            Err(e) => Err(e),
            Ok((v, q)) => {
                let share = v - 1;
                let used = if share < 0 {
                    1
                } else {
                    share
                };
                if !(p < q <= 8 * c.len()) || used > remaining {
                    Err(ZstdErrorView::UnexpectedEof)
                } else if share == 0 {
                    match zeros_at(c, q) {
                        Err(e) => Err(e),
                        Ok((n, r)) => if !(q < r <= 8 * c.len()) {
                            Err(ZstdErrorView::UnexpectedEof)
                        } else {
                            shares_at(c, r, remaining, have.push(0i16) + zeros(n))
                        },
                    }
                } else {
                    shares_at(c, q, (remaining - used) as nat, have.push(share as i16))
                }
            },
        }
    }
}

/// The accuracy log and the shares that a description gives, and the byte behind it: no log above
/// `max_log`, and no share for a symbol above `max_symbol`.
pub open spec fn description_at(c: Seq<u8>, max_log: int, max_symbol: int) -> Result<
    (int, Seq<i16>, int),
    ZstdErrorView,
> {
    if c.len() == 0 {
        Err(ZstdErrorView::UnexpectedEof)
    } else {
        let log = bits_at(c, 0, 4) + 5;
        if log > max_log {
            Err(ZstdErrorView::UnexpectedEof)
        } else {
            match shares_at(c, 4, pow2(log), seq![]) {
                Err(e) => Err(e),
                Ok((shares, p)) => if shares.len() > max_symbol + 1 {
                    Err(ZstdErrorView::UnexpectedEof)
                } else {
                    Ok((log as int, shares, (p + 7) / 8))
                },
            }
        }
    }
}

/// A table's symbols while the symbols of less than one share are placed: each takes the last cell
/// that is free. The second part is how many cells are left before them.
pub open spec fn rare_cells(shares: Seq<i16>, k: int, size: nat) -> (Seq<u8>, int)
    decreases k,
{
    if k <= 0 {
        (Seq::new(size, |i: int| 0u8), size as int)
    } else {
        let (cells, high) = rare_cells(shares, k - 1, size);
        if shares[k - 1] == -1 && high > 0 {
            (cells.update(high - 1, (k - 1) as u8), high - 1)
        } else {
            (cells, high)
        }
    }
}

/// How far apart two cells of one symbol are.
pub open spec fn stride(size: nat) -> int {
    size as int / 2 + size as int / 8 + 3
}

/// The cell after `pos` that a symbol takes: one stride further, and further still while that is
/// not among the first `high`. It takes at most `tries` strides.
pub open spec fn next_cell(pos: int, high: int, size: nat, tries: nat) -> int
    decreases tries,
{
    let next = (pos + stride(size)) % (size as int);
    if tries == 0 || next < high {
        next
    } else {
        next_cell(next, high, size, (tries - 1) as nat)
    }
}

/// The cells after symbol `s` took `n` of them, from `pos` on.
pub open spec fn symbol_cells(
    cells: Seq<u8>,
    pos: int,
    s: u8,
    n: nat,
    high: int,
    size: nat,
) -> (Seq<u8>, int)
    decreases n,
{
    if n == 0 {
        (cells, pos)
    } else {
        let (c, p) = symbol_cells(cells, pos, s, (n - 1) as nat, high, size);
        (c.update(p, s), next_cell(p, high, size, size))
    }
}

/// The cells after the first `k` symbols took theirs, and the cell that comes next.
pub open spec fn spread_cells(shares: Seq<i16>, k: int, size: nat) -> (Seq<u8>, int)
    decreases k,
{
    let (rare, high) = rare_cells(shares, shares.len() as int, size);
    if k <= 0 {
        (rare, 0)
    } else {
        let (cells, pos) = spread_cells(shares, k - 1, size);
        if shares[k - 1] <= 0 {
            (cells, pos)
        } else {
            symbol_cells(cells, pos, (k - 1) as u8, shares[k - 1] as nat, high, size)
        }
    }
}

/// How many of the first `k` cells hold symbol `s`.
pub open spec fn held(cells: Seq<u8>, s: u8, k: int) -> nat
    decreases k,
{
    if k <= 0 {
        0
    } else {
        held(cells, s, k - 1) + if cells[k - 1] == s {
            1nat
        } else {
            0nat
        }
    }
}

/// How many cells a symbol has: a symbol of less than one share has one.
pub open spec fn weight(share: i16) -> nat {
    if share < 1 {
        1
    } else {
        share as nat
    }
}

/// The cell for state `i`: the states of a symbol divide all states among them, those with the
/// lower numbers in larger parts.
pub open spec fn cell_at(shares: Seq<i16>, cells: Seq<u8>, log: int, i: int) -> FseEntry {
    let s = cells[i];
    let state = weight(shares[s as int]) + held(cells, s, i);
    let nb = log - top_bit(state);
    FseEntry {
        symbol: s,
        nb_bits: nb as u8,
        base_state: (state * pow2(nb as nat) - pow2(log as nat)) as u16,
    }
}

/// The table for an accuracy log and the shares of the symbols.
pub open spec fn table_of(log: int, shares: Seq<i16>) -> Result<FseTableView, ZstdErrorView> {
    let size = pow2(log as nat);
    let (cells, pos) = spread_cells(shares, shares.len() as int, size);
    if pos != 0 {
        Err(ZstdErrorView::UnexpectedEof)
    } else {
        Ok(
            FseTableView {
                accuracy_log: log as u8,
                entries: Seq::new(size, |i: int| cell_at(shares, cells, log, i)),
            },
        )
    }
}

/// Shares that a table can be built from: one for each of some symbols, none above the whole.
pub open spec fn shares_ok(shares: Seq<i16>, log: int) -> bool {
    &&& 0 < shares.len() <= 256
    &&& 0 <= log <= 9
    &&& forall|i: int| 0 <= i < shares.len() ==> #[trigger] shares[i] <= pow2(log as nat)
}

/// Reads one value of a description of probabilities.
fn read_value(r: &mut BitReader, remaining: u32) -> (v: Result<u32, ZstdError>)
    requires
        old(r).wf(),
        1 <= remaining <= 512,
    ensures
        final(r).wf(),
        final(r).c == old(r).c,
        match (v, value_at(old(r).c@, old(r).pos(), remaining as nat)) {
            (Ok(a), Ok(b)) => a == b.0 && a <= 0x1_0000 && final(r).pos() == b.1 && old(r).pos()
                < b.1 <= 8 * old(r).c@.len(),
            (Err(x), Err(y)) => x@ == y,
            _ => false,
        },
{
    proof {
        lemma2_to64();
        lemma_top_bit_bound((remaining + 1) as nat, 9);
        lemma_top_bit((remaining + 1) as nat);
    }
    let width: u32 = high_bit(remaining + 1) + 1;
    let ghost c = r.c@;
    let ghost p = r.pos();
    proof {
        assert(remaining + 1 >= 2);
        assert(top_bit((remaining + 1) as nat) >= 1) by {
            reveal_with_fuel(top_bit, 2);
        }
        lemma_pow2_unfold(width as nat);
        vstd::arithmetic::power2::lemma_pow2_strictly_increases(width as nat, 16);
        lemma_bits_bound(c, p, (width - 1) as nat);
        lemma_bits_bound(c, p, width as nat);
    }
    let half: u32 = two_to(width - 1);
    let spare: u32 = 2 * half - 1 - (remaining + 1);
    let mut ahead = BitReader { c: r.c, byte: r.byte, shift: r.shift };
    match ahead.bits(width - 1) {
        None => Err(ZstdError::UnexpectedEof),
        Some(low) => {
            if (low as u32) < spare {
                r.byte = ahead.byte;
                r.shift = ahead.shift;
                return Ok(low as u32);
            }
            match r.bits(width) {
                None => Err(ZstdError::UnexpectedEof),
                Some(full) => {
                    let full: u32 = full as u32;
                    if full >= half {
                        proof {
                            assert(bits_at(c, p, width as nat) == bits_at(
                                c,
                                p,
                                (width - 1) as nat,
                            ) + crate::bytes::bit_at(c, p + width - 1) * pow2((width - 1) as nat));
                            let b = crate::bytes::bit_at(c, p + width - 1) as int;
                            let h = half as int;
                            assert(b * h == 0 || b * h == h) by (nonlinear_arith)
                                requires
                                    b == 0 || b == 1,
                            ;
                        }
                        Ok(full - spare)
                    } else {
                        Ok(full)
                    }
                },
            }
        },
    }
}

/// Reads how many zeros follow a zero and appends them.
fn read_zeros(r: &mut BitReader, have: &mut Vec<i16>) -> (v: Result<(), ZstdError>)
    requires
        old(r).wf(),
    ensures
        final(r).wf(),
        final(r).c == old(r).c,
        match (v, zeros_at(old(r).c@, old(r).pos())) {
            (Ok(_), Ok(b)) => final(have)@ == old(have)@ + zeros(b.0) && final(r).pos() == b.1
                && old(r).pos() < b.1 <= 8 * old(r).c@.len(),
            (Err(x), Err(y)) => x@ == y,
            _ => false,
        },
{
    let ghost c = r.c@;
    let ghost start = have@;
    let ghost whole = zeros_at(c, r.pos());
    let ghost mut done: nat = 0;
    proof {
        assert(start + zeros(0) =~= start);
    }
    loop
        invariant
            r.wf(),
            r.c@ == c,
            r.c == old(r).c,
            c == old(r).c@,
            start == old(have)@,
            whole == zeros_at(c, old(r).pos()),
            r.pos() >= old(r).pos(),
            have@ == start + zeros(done),
            match zeros_at(c, r.pos()) {
                Err(e) => whole == Err::<(nat, int), ZstdErrorView>(e),
                Ok((n, q)) => whole == Ok::<(nat, int), ZstdErrorView>((done + n, q)),
            },
        decreases 8 * c.len() - r.pos(),
    {
        let n: u64 = match r.bits(2) {
            None => {
                return Err(ZstdError::UnexpectedEof);
            },
            Some(n) => n,
        };
        proof {
            lemma2_to64();
            lemma_bits_bound(c, r.pos() - 2, 2);
        }
        let ghost before = have@;
        let mut i: u64 = 0;
        while i < n
            invariant
                i <= n,
                have@ == before + zeros(i as nat),
            decreases n - i,
        {
            have.push(0i16);
            proof {
                assert(have@ =~= before + zeros((i + 1) as nat));
            }
            i = i + 1;
        }
        proof {
            assert(have@ =~= start + zeros((done + n) as nat));
            done = (done + n) as nat;
        }
        if n != 3 {
            return Ok(());
        }
    }
}

/// Reads the description of a table, of at most the accuracy log `max_log` and for symbols of at
/// most `max_symbol`: the accuracy log, the share of each symbol, and how many bytes it takes.
pub fn read_description(c: &[u8], max_log: u32, max_symbol: u32) -> (r: Result<
    (u32, Vec<i16>, usize),
    ZstdError,
>)
    requires
        max_log <= 9,
        max_symbol <= 255,
    ensures
        match (r, description_at(c@, max_log as int, max_symbol as int)) {
            (Ok(a), Ok(b)) => a.0 == b.0 && a.1@ == b.1 && a.2 == b.2 && a.2 <= c@.len()
                && shares_ok(b.1, b.0),
            (Err(x), Err(y)) => x@ == y,
            _ => false,
        },
{
    let mut r = BitReader { c, byte: 0, shift: 0 };
    let first: u64 = match r.bits(4) {
        None => {
            return Err(ZstdError::UnexpectedEof);
        },
        Some(n) => n,
    };
    proof {
        lemma2_to64();
        lemma_bits_bound(c@, 0, 4);
    }
    let log: u32 = first as u32 + 5;
    if log > max_log {
        return Err(ZstdError::UnexpectedEof);
    }
    let size: u32 = two_to(log);
    proof {
        if log < 9 {
            vstd::arithmetic::power2::lemma_pow2_strictly_increases(log as nat, 9);
        }
    }
    let mut remaining: u32 = size;
    let mut shares: Vec<i16> = Vec::new();
    let ghost whole = shares_at(c@, 4, size as nat, seq![]);
    proof {
        assert(shares@ =~= seq![]);
    }
    while remaining > 0
        invariant
            r.wf(),
            r.c == c,
            remaining <= size <= 512,
            whole == shares_at(c@, r.pos(), remaining as nat, shares@),
            forall|i: int| 0 <= i < shares@.len() ==> #[trigger] shares@[i] <= size,
            remaining < size ==> shares@.len() > 0,
            description_at(c@, max_log as int, max_symbol as int) == (match whole {
                Err(e) => Err(e),
                Ok((shares, p)) => if shares.len() > max_symbol + 1 {
                    Err(ZstdErrorView::UnexpectedEof)
                } else {
                    Ok((log as int, shares, (p + 7) / 8))
                },
            }),
        decreases 8 * c@.len() - r.pos(),
    {
        let v: u32 = read_value(&mut r, remaining)?;
        if v == 1 {
            shares.push(0i16);
            read_zeros(&mut r, &mut shares)?;
        } else {
            let used: u32 = if v == 0 {
                1
            } else {
                v - 1
            };
            if used > remaining {
                return Err(ZstdError::UnexpectedEof);
            }
            let share: i16 = if v == 0 {
                -1
            } else {
                used as i16
            };
            proof {
                assert(share == (v - 1) as i16);
            }
            shares.push(share);
            remaining = remaining - used;
        }
    }
    if shares.len() > max_symbol as usize + 1 {
        return Err(ZstdError::UnexpectedEof);
    }
    r.align();
    Ok((log, shares, r.byte))
}

/// The state and the width of a cell fit a table of the accuracy log.
proof fn lemma_cell(shares: Seq<i16>, cells: Seq<u8>, log: int, i: int)
    requires
        shares_ok(shares, log),
        cells.len() == pow2(log as nat),
        0 <= i < cells.len(),
        cells[i] < shares.len(),
    ensures
        ({
            let state = weight(shares[cells[i] as int]) + held(cells, cells[i], i);
            let nb = log - top_bit(state);
            &&& 1 <= state < 2 * pow2(log as nat) <= 1024
            &&& 0 <= nb <= 9
            &&& 0 <= state * pow2(nb as nat) - pow2(log as nat) <= 512
            &&& cell_at(shares, cells, log, i).base_state + pow2(nb as nat) <= pow2(log as nat)
        }),
{
    let s = cells[i];
    lemma_held_bound(cells, s, i);
    let state = weight(shares[s as int]) + held(cells, s, i);
    lemma2_to64();
    if log < 9 {
        vstd::arithmetic::power2::lemma_pow2_strictly_increases(log as nat, 9);
    }
    if 0 < log {
        vstd::arithmetic::power2::lemma_pow2_strictly_increases(0, log as nat);
    }
    lemma_pow2_unfold((log + 1) as nat);
    lemma_top_bit(state);
    lemma_top_bit_bound(state, log as nat);
    let t = top_bit(state);
    let nb = (log - t) as nat;
    vstd::arithmetic::power2::lemma_pow2_adds(t, nb);
    vstd::arithmetic::power2::lemma_pow2_adds((t + 1) as nat, nb);
    vstd::arithmetic::power2::lemma_pow2_pos(nb);
    assert(t + 1 + nb == log + 1);
    let a = pow2(t) as int;
    let b = pow2((t + 1) as nat) as int;
    let w = pow2(nb) as int;
    let st = state as int;
    assert(a * w <= st * w && (st + 1) * w <= b * w && st * w + w == (st + 1) * w)
        by (nonlinear_arith)
        requires
            a <= st < b,
            w > 0,
    ;
}

proof fn lemma_held_bound(cells: Seq<u8>, s: u8, k: int)
    requires
        0 <= k,
    ensures
        held(cells, s, k) <= k,
    decreases k,
{
    if k > 0 {
        lemma_held_bound(cells, s, k - 1);
    }
}

proof fn lemma_rare_cells(shares: Seq<i16>, k: int, size: nat)
    requires
        0 <= k <= shares.len() <= 256,
        shares.len() > 0,
    ensures
        rare_cells(shares, k, size).0.len() == size,
        0 <= rare_cells(shares, k, size).1 <= size,
        forall|i: int|
            0 <= i < size ==> (#[trigger] rare_cells(shares, k, size).0[i]) < shares.len(),
    decreases k,
{
    if k > 0 {
        lemma_rare_cells(shares, k - 1, size);
    }
}

/// The cell after `pos` that a symbol takes.
fn find_cell(pos: usize, high: usize, size: usize) -> (r: usize)
    requires
        pos < size <= 512,
    ensures
        r == next_cell(pos as int, high as int, size as nat, size as nat),
        r < size,
{
    let step: usize = size / 2 + size / 8 + 3;
    let mut at: usize = (pos + step) % size;
    let mut tries: usize = size;
    while tries > 0 && at >= high
        invariant
            at < size <= 512,
            tries <= size,
            step == stride(size as nat),
            ({
                let next = at as int;
                if tries == 0 || next < high {
                    next
                } else {
                    next_cell(next, high as int, size as nat, (tries - 1) as nat)
                }
            }) == next_cell(pos as int, high as int, size as nat, size as nat),
        decreases tries,
    {
        at = (at + step) % size;
        tries = tries - 1;
    }
    at
}

/// The symbol of each cell; nothing if the symbols do not come out even.
fn spread(shares: &Vec<i16>, size: usize) -> (r: Option<Vec<u8>>)
    requires
        0 < shares@.len() <= 256,
        0 < size <= 512,
        forall|i: int| 0 <= i < shares@.len() ==> #[trigger] shares@[i] <= size,
    ensures
        ({
            let (cells, pos) = spread_cells(shares@, shares@.len() as int, size as nat);
            match r {
                Some(v) => pos == 0 && v@ == cells && v@.len() == size && forall|i: int|
                    0 <= i < size ==> (#[trigger] v@[i]) < shares@.len(),
                None => pos != 0,
            }
        }),
{
    let n: usize = shares.len();
    let mut cells: Vec<u8> = Vec::new();
    let mut i: usize = 0;
    while i < size
        invariant
            i <= size,
            cells@ == Seq::new(i as nat, |j: int| 0u8),
        decreases size - i,
    {
        cells.push(0u8);
        proof {
            assert(cells@ =~= Seq::new((i + 1) as nat, |j: int| 0u8));
        }
        i = i + 1;
    }
    let mut high: usize = size;
    let mut k: usize = 0;
    while k < n
        invariant
            k <= n == shares@.len() <= 256,
            0 < n,
            (cells@, high as int) == rare_cells(shares@, k as int, size as nat),
            cells@.len() == size,
            high <= size,
        decreases n - k,
    {
        if shares[k] == -1 && high > 0 {
            high = high - 1;
            cells.set(high, k as u8);
        }
        k = k + 1;
    }
    proof {
        lemma_rare_cells(shares@, n as int, size as nat);
    }
    let mut pos: usize = 0;
    k = 0;
    while k < n
        invariant
            k <= n == shares@.len() <= 256,
            0 < n,
            high <= size <= 512,
            pos < size,
            high == rare_cells(shares@, n as int, size as nat).1,
            (cells@, pos as int) == spread_cells(shares@, k as int, size as nat),
            cells@.len() == size,
            forall|i: int| 0 <= i < shares@.len() ==> #[trigger] shares@[i] <= size,
            forall|i: int| 0 <= i < size ==> (#[trigger] cells@[i]) < n,
        decreases n - k,
    {
        if shares[k] > 0 {
            let count: usize = shares[k] as usize;
            let ghost c0 = cells@;
            let ghost p0 = pos as int;
            let mut j: usize = 0;
            while j < count
                invariant
                    k < n <= 256,
                    j <= count,
                    high <= size <= 512,
                    pos < size,
                    cells@.len() == size,
                    (cells@, pos as int) == symbol_cells(
                        c0,
                        p0,
                        k as u8,
                        j as nat,
                        high as int,
                        size as nat,
                    ),
                    forall|i: int| 0 <= i < size ==> (#[trigger] cells@[i]) < n,
                decreases count - j,
            {
                cells.set(pos, k as u8);
                pos = find_cell(pos, high, size);
                j = j + 1;
            }
        }
        k = k + 1;
    }
    if pos != 0 {
        return None;
    }
    Some(cells)
}

/// Builds the table for an accuracy log and the shares of the symbols.
pub fn build_table(log: u32, shares: &Vec<i16>) -> (r: Result<FseTable, ZstdError>)
    requires
        shares_ok(shares@, log as int),
    ensures
        match (r, table_of(log as int, shares@)) {
            (Ok(a), Ok(b)) => a@ == b && b.wf(shares@.len() - 1),
            (Err(x), Err(y)) => x@ == y,
            _ => false,
        },
{
    proof {
        lemma2_to64();
        if log < 9 {
            vstd::arithmetic::power2::lemma_pow2_strictly_increases(log as nat, 9);
        }
    }
    let size: u32 = two_to(log);
    let cells: Vec<u8> = match spread(shares, size as usize) {
        None => {
            return Err(ZstdError::UnexpectedEof);
        },
        Some(cells) => cells,
    };
    let n: usize = shares.len();
    let mut states: Vec<u32> = Vec::new();
    let mut s: usize = 0;
    while s < n
        invariant
            s <= n == shares@.len(),
            shares_ok(shares@, log as int),
            states@.len() == s,
            forall|j: int| 0 <= j < s ==> #[trigger] states@[j] == weight(shares@[j]),
        decreases n - s,
    {
        let share: i16 = shares[s];
        if share < 1 {
            states.push(1);
        } else {
            states.push(share as u32);
        }
        s = s + 1;
    }
    let mut entries: Vec<FseEntry> = Vec::new();
    let mut i: usize = 0;
    while i < size as usize
        invariant
            i <= size,
            size == pow2(log as nat),
            size <= 512,
            cells@.len() == size,
            n == shares@.len(),
            shares_ok(shares@, log as int),
            states@.len() == n,
            forall|j: int| 0 <= j < size ==> (#[trigger] cells@[j]) < n,
            forall|j: int|
                0 <= j < n ==> #[trigger] states@[j] == weight(shares@[j]) + held(
                    cells@,
                    j as u8,
                    i as int,
                ),
            entries@.len() == i,
            forall|j: int|
                0 <= j < i ==> #[trigger] entries@[j] == cell_at(shares@, cells@, log as int, j),
            forall|j: int|
                0 <= j < i ==> (#[trigger] entries@[j]).base_state + pow2(
                    entries@[j].nb_bits as nat,
                ) <= size && entries@[j].nb_bits <= 9 && entries@[j].symbol < n,
        decreases size - i,
    {
        let symbol: u8 = cells[i];
        let state: u32 = states[symbol as usize];
        proof {
            lemma_cell(shares@, cells@, log as int, i as int);
        }
        let nb: u32 = log - high_bit(state);
        let width: u32 = two_to(nb);
        let base: u32 = state * width - size;
        entries.push(FseEntry { symbol, nb_bits: nb as u8, base_state: base as u16 });
        states.set(symbol as usize, state + 1);
        i = i + 1;
    }
    let table = FseTable { accuracy_log: log as u8, entries };
    proof {
        assert(table.entries@ =~= table_of(log as int, shares@)->Ok_0.entries);
    }
    Ok(table)
}

} // verus!
