//! Numbers in bytes and bits.
use vstd::arithmetic::power2::{lemma2_to64, lemma_pow2_unfold, pow2};
use vstd::prelude::*;

verus! {

/// 256 to the power `k`.
pub open spec fn pow256(k: nat) -> nat
    decreases k,
{
    if k == 0 {
        1
    } else {
        256 * pow256((k - 1) as nat)
    }
}

/// The number whose base-256 digits are the bytes, least significant first.
pub open spec fn le(s: Seq<u8>) -> nat
    decreases s.len(),
{
    if s.len() == 0 {
        0
    } else {
        le(s.drop_last()) + s.last() as nat * pow256((s.len() - 1) as nat)
    }
}

/// The number whose base-256 digits are the bytes, most significant first.
pub open spec fn be(s: Seq<u8>) -> nat
    decreases s.len(),
{
    if s.len() == 0 {
        0
    } else {
        256 * be(s.drop_last()) + s.last() as nat
    }
}

/// The number in two's complement in the bytes, most significant first: the first bit is its sign.
pub open spec fn be_signed(s: Seq<u8>) -> int {
    if s.len() > 0 && s[0] >= 128 {
        be(s) - pow256(s.len())
    } else {
        be(s) as int
    }
}

/// The number in two's complement that a 32-bit pattern stands for.
pub open spec fn signed32(n: nat) -> int {
    if n >= 0x8000_0000 {
        n - 0x1_0000_0000
    } else {
        n as int
    }
}

/// The number in two's complement that a 64-bit pattern stands for.
pub open spec fn signed64(n: nat) -> int {
    if n >= 0x8000_0000_0000_0000 {
        n - 0x1_0000_0000_0000_0000
    } else {
        n as int
    }
}

/// The bit with number `j`, where each byte holds eight bits, least significant first.
pub open spec fn bit_at(c: Seq<u8>, j: int) -> nat {
    (c[j / 8] as nat / pow2((j % 8) as nat)) % 2
}

/// The number whose binary digits are the `n` bits from bit `start` on, least significant first.
pub open spec fn bits_at(c: Seq<u8>, start: int, n: nat) -> nat
    decreases n,
{
    if n == 0 {
        0
    } else {
        bits_at(c, start, (n - 1) as nat) + bit_at(c, start + n - 1) * pow2((n - 1) as nat)
    }
}

pub proof fn lemma_pow256_values()
    ensures
        pow256(0) == 1,
        pow256(1) == 0x100,
        pow256(2) == 0x1_0000,
        pow256(3) == 0x100_0000,
        pow256(4) == 0x1_0000_0000,
        pow256(5) == 0x100_0000_0000,
        pow256(6) == 0x1_0000_0000_0000,
        pow256(7) == 0x100_0000_0000_0000,
        pow256(8) == 0x1_0000_0000_0000_0000,
        pow256(15) == 0x100_0000_0000_0000_0000_0000_0000_0000,
        pow256(16) == 0x1_0000_0000_0000_0000_0000_0000_0000_0000int,
{
    reveal_with_fuel(pow256, 17);
}

/// A number of `n` bytes is below 256 to the power `n`.
pub proof fn lemma_le_bound(s: Seq<u8>)
    ensures
        le(s) < pow256(s.len()),
    decreases s.len(),
{
    if s.len() > 0 {
        let k = (s.len() - 1) as nat;
        lemma_le_bound(s.drop_last());
        assert(s.last() as nat * pow256(k) <= 255 * pow256(k)) by (nonlinear_arith)
            requires
                s.last() <= 255,
        ;
    }
}

/// A number of `n` bits is below two to the power `n`.
pub proof fn lemma_bits_bound(c: Seq<u8>, start: int, n: nat)
    ensures
        bits_at(c, start, n) < pow2(n),
    decreases n,
{
    if n == 0 {
        lemma2_to64();
    } else {
        let m = (n - 1) as nat;
        lemma_bits_bound(c, start, m);
        lemma_pow2_unfold(n);
        let bit = bit_at(c, start + n - 1);
        assert(bit * pow2(m) <= pow2(m)) by (nonlinear_arith)
            requires
                bit <= 1,
        ;
    }
}

/// The number in at most eight bytes, least significant first.
pub fn le_number(s: &[u8]) -> (r: u64)
    requires
        s@.len() <= 8,
    ensures
        r == le(s@),
{
    let mut acc: u64 = 0;
    let mut scale: u64 = 1;
    let mut i: usize = 0;
    proof {
        lemma_pow256_values();
        assert(s@.take(0) =~= Seq::<u8>::empty());
    }
    while i < s.len()
        invariant
            i <= s@.len() <= 8,
            acc == le(s@.take(i as int)),
            i < 8 ==> scale == pow256(i as nat),
        decreases s@.len() - i,
    {
        let x: u64 = s[i] as u64;
        proof {
            lemma_pow256_values();
            let t = s@.take(i + 1);
            assert(t.drop_last() =~= s@.take(i as int));
            lemma_le_bound(s@.take(i as int));
            assert(pow256(i as nat) <= 0x100_0000_0000_0000) by {
                if i == 0 {} else if i == 1 {} else if i == 2 {} else if i == 3 {} else if i == 4 {
                } else if i == 5 {} else if i == 6 {} else {}
            }
            assert(x * scale <= 255 * scale) by (nonlinear_arith)
                requires
                    x <= 255,
            ;
            assert(pow256((i + 1) as nat) == 256 * pow256(i as nat));
        }
        acc = acc + x * scale;
        if i < 7 {
            scale = scale * 256;
        }
        i += 1;
    }
    assert(s@.take(i as int) =~= s@);
    acc
}

/// The 32-bit number in the four bytes at position `p`.
pub fn le_u32(s: &[u8], p: usize) -> (r: u32)
    requires
        p + 4 <= s@.len(),
    ensures
        r == le(s@.subrange(p as int, p + 4)),
{
    assert(s@.len() == s.len());
    let t = vstd::slice::slice_subrange(s, p, p + 4);
    proof {
        lemma_pow256_values();
        lemma_le_bound(t@);
    }
    le_number(t) as u32
}

/// The 16-bit number in the two bytes at position `p`.
pub fn le_u16(s: &[u8], p: usize) -> (r: u16)
    requires
        p + 2 <= s@.len(),
    ensures
        r == le(s@.subrange(p as int, p + 2)),
{
    assert(s@.len() == s.len());
    let t = vstd::slice::slice_subrange(s, p, p + 2);
    proof {
        lemma_pow256_values();
        lemma_le_bound(t@);
    }
    le_number(t) as u16
}

/// One bit of a byte.
pub fn bit_of(x: u8, k: u8) -> (r: u64)
    requires
        k < 8,
    ensures
        r == (x as nat / pow2(k as nat)) % 2,
        r <= 1,
{
    proof {
        lemma2_to64();
    }
    let y: u8 = match k {
        0 => x,
        1 => x / 2,
        2 => x / 4,
        3 => x / 8,
        4 => x / 16,
        5 => x / 32,
        6 => x / 64,
        _ => x / 128,
    };
    (y % 2) as u64
}

/// The number in the `n` bits of `c` from bit `8 * byte + shift` on.
pub fn read_bits(c: &[u8], byte: usize, shift: u8, n: u32) -> (r: u64)
    requires
        n <= 64,
        shift < 8,
        8 * byte + shift + n <= 8 * c@.len(),
    ensures
        r == bits_at(c@, 8 * byte + shift, n as nat),
{
    let mut v: u64 = 0;
    let mut w: u64 = 1;
    let mut k: u32 = 0;
    let mut at: usize = byte;
    let mut sh: u8 = shift;
    proof {
        lemma2_to64();
    }
    while k < n
        invariant
            k <= n <= 64,
            sh < 8,
            8 * at + sh == 8 * byte + shift + k,
            8 * byte + shift + n <= 8 * c@.len(),
            k < 64 ==> w == pow2(k as nat),
            v == bits_at(c@, 8 * byte + shift, k as nat),
        decreases n - k,
    {
        proof {
            lemma2_to64();
            lemma_bits_bound(c@, 8 * byte + shift, k as nat);
            lemma_bits_bound(c@, 8 * byte + shift, (k + 1) as nat);
            vstd::arithmetic::power2::lemma_pow2_strictly_increases(k as nat, 64);
            if k + 1 < 64 {
                vstd::arithmetic::power2::lemma_pow2_strictly_increases((k + 1) as nat, 64);
            }
            lemma_pow2_unfold((k + 1) as nat);
            assert((8 * at + sh) / 8 == at);
            assert((8 * at + sh) % 8 == sh);
        }
        let bit: u64 = bit_of(c[at], sh);
        assert(bit == bit_at(c@, 8 * byte + shift + k));
        assert(bit * w <= w) by (nonlinear_arith)
            requires
                bit <= 1,
        ;
        v = v + bit * w;
        if k < 63 {
            w = w * 2;
        }
        k += 1;
        if sh == 7 {
            sh = 0;
            at = at + 1;
        } else {
            sh = sh + 1;
        }
    }
    v
}

/// The 64-bit number in the eight bytes at position `p`.
pub fn le_u64(s: &[u8], p: usize) -> (r: u64)
    requires
        p + 8 <= s@.len(),
    ensures
        r == le(s@.subrange(p as int, p + 8)),
{
    assert(s@.len() == s.len());
    let t = vstd::slice::slice_subrange(s, p, p + 8);
    le_number(t)
}

/// The signed 32-bit number in the four bytes at position `p`.
pub fn le_i32(s: &[u8], p: usize) -> (r: i32)
    requires
        p + 4 <= s@.len(),
    ensures
        r == signed32(le(s@.subrange(p as int, p + 4))),
{
    let n: u32 = le_u32(s, p);
    if n >= 0x8000_0000 {
        (n as i64 - 0x1_0000_0000) as i32
    } else {
        n as i32
    }
}

/// The signed 64-bit number in the eight bytes at position `p`.
pub fn le_i64(s: &[u8], p: usize) -> (r: i64)
    requires
        p + 8 <= s@.len(),
    ensures
        r == signed64(le(s@.subrange(p as int, p + 8))),
{
    let n: u64 = le_u64(s, p);
    if n >= 0x8000_0000_0000_0000 {
        (n as i128 - 0x1_0000_0000_0000_0000) as i64
    } else {
        n as i64
    }
}

/// A big-endian number of `n` bytes is below 256 to the power `n`, and its first byte says in which
/// half it lies.
pub proof fn lemma_be_bound(s: Seq<u8>)
    requires
        s.len() > 0,
    ensures
        be(s) < pow256(s.len()),
        s[0] >= 128 <==> be(s) >= 128 * pow256((s.len() - 1) as nat),
    decreases s.len(),
{
    if s.len() == 1 {
        lemma_pow256_values();
        assert(s.drop_last() =~= Seq::<u8>::empty());
        assert(be(Seq::<u8>::empty()) == 0);
    } else {
        lemma_be_bound(s.drop_last());
        assert(s.drop_last()[0] == s[0]);
        assert(pow256((s.len() - 1) as nat) == 256 * pow256((s.len() - 2) as nat));
    }
}

proof fn lemma_pow256_grows(a: nat, b: nat)
    requires
        a <= b,
    ensures
        1 <= pow256(a) <= pow256(b),
    decreases b,
{
    if b > 0 {
        if a < b {
            lemma_pow256_grows(a, (b - 1) as nat);
        } else {
            lemma_pow256_grows((a - 1) as nat, (b - 1) as nat);
        }
    }
}

/// The number in two's complement in one to sixteen bytes, most significant first.
pub fn flba_be_to_i128(bytes: &[u8]) -> (r: i128)
    requires
        1 <= bytes@.len() <= 16,
    ensures
        r == be_signed(bytes@),
{
    let first: u8 = bytes[0];
    let mut acc: i128 = if first >= 128 {
        first as i128 - 256
    } else {
        first as i128
    };
    let mut i: usize = 1;
    proof {
        lemma_pow256_values();
        assert(bytes@.take(1).drop_last() =~= Seq::<u8>::empty());
        assert(be(Seq::<u8>::empty()) == 0);
        assert(be(bytes@.take(1)) == first);
    }
    while i < bytes.len()
        invariant
            1 <= i <= bytes@.len() <= 16,
            acc == be_signed(bytes@.take(i as int)),
        decreases bytes@.len() - i,
    {
        let x: i128 = bytes[i] as i128;
        proof {
            let t = bytes@.take(i as int);
            let u = bytes@.take(i + 1);
            assert(u.drop_last() =~= t);
            assert(t[0] == u[0]);
            lemma_be_bound(t);
            lemma_pow256_values();
            lemma_pow256_grows(i as nat, 15);
            assert(pow256((i + 1) as nat) == 256 * pow256(i as nat));
            assert(pow256(i as nat) == 256 * pow256((i - 1) as nat));
        }
        acc = acc * 256 + x;
        i += 1;
    }
    assert(bytes@.take(i as int) =~= bytes@);
    acc
}

} // verus!
