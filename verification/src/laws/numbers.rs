//! Integers: varints, zigzag codes, fixed-width numbers and packed bits.
use vstd::arithmetic::div_mod::{
    lemma_div_denominator, lemma_div_multiples_vanish_fancy, lemma_mod_breakdown, lemma_mod_mod,
};
use vstd::arithmetic::power2::{
    lemma2_to64, lemma_pow2_adds, lemma_pow2_pos, lemma_pow2_unfold, pow2,
};
use vstd::prelude::*;

use crate::bytes::{be, be_signed, bit_at, bits_at, le, pow256, signed32, signed64};
use crate::thrift::{ivarint_at, uvarint_at, zigzag};
use crate::varint::{base128, continuation, pow128, varint_at, VarintView, TWO_64};

verus! {

/// A number as a varint: seven bits to a byte, the lowest first, with the high bit set in each byte
/// but the last.
pub open spec fn varint_form(n: nat) -> Seq<u8>
    decreases n,
{
    if n < 128 {
        seq![n as u8]
    } else {
        seq![(128 + n % 128) as u8] + varint_form(n / 128)
    }
}

proof fn lemma_base128_one(x: u8)
    ensures
        base128(seq![x]) == x as nat % 128,
{
    assert(seq![x].drop_last() =~= Seq::<u8>::empty());
    assert(base128(Seq::<u8>::empty()) == 0);
    let d = x as nat % 128;
    assert(d * 1 == d) by (nonlinear_arith);
    assert(pow128(0) == 1);
}

proof fn lemma_base128_front(x: u8, s: Seq<u8>)
    ensures
        base128(seq![x] + s) == x as nat % 128 + 128 * base128(s),
    decreases s.len(),
{
    let t = seq![x] + s;
    if s.len() == 0 {
        assert(t =~= seq![x]);
        lemma_base128_one(x);
    } else {
        assert(t.drop_last() =~= seq![x] + s.drop_last());
        lemma_base128_front(x, s.drop_last());
        let d = (s.last() as nat % 128) as int;
        let w = pow128((s.len() - 1) as nat) as int;
        assert(pow128(s.len()) == 128 * pow128((s.len() - 1) as nat));
        assert(d * (128 * w) == 128 * (d * w)) by (nonlinear_arith);
    }
}

proof fn lemma_varint_form(n: nat)
    ensures
        base128(varint_form(n)) == n,
        varint_form(n).len() >= 1,
        forall|i: int|
            0 <= i < varint_form(n).len() - 1 ==> (#[trigger] varint_form(n)[i]) >= 128,
        varint_form(n).last() < 128,
    decreases n,
{
    if n < 128 {
        lemma_base128_one(n as u8);
    } else {
        lemma_varint_form(n / 128);
        let x = (128 + n % 128) as u8;
        let rest = varint_form(n / 128);
        lemma_base128_front(x, rest);
        let s = varint_form(n);
        assert(s =~= seq![x] + rest);
        assert forall|i: int| 0 <= i < s.len() - 1 implies (#[trigger] s[i]) >= 128 by {
            if i > 0 {
                assert(s[i] == rest[i - 1]);
            }
        }
    }
}

/// A varint takes at least one byte.
pub proof fn lemma_varint_form_len(n: nat)
    ensures
        varint_form(n).len() >= 1,
{
    lemma_varint_form(n);
}

proof fn lemma_varint_len(n: nat, k: nat)
    requires
        n < pow128(k),
        k >= 1,
    ensures
        varint_form(n).len() <= k,
    decreases k,
{
    if n >= 128 {
        assert(pow128(k) == 128 * pow128((k - 1) as nat));
        if k == 1 {
            assert(pow128(0) == 1);
        } else {
            lemma_varint_len(n / 128, (k - 1) as nat);
        }
    }
}

proof fn lemma_continuation(b: Seq<u8>, p: int, k: nat)
    requires
        0 <= p,
        p + k < b.len(),
        forall|i: int| p <= i < p + k ==> (#[trigger] b[i]) >= 128,
        b[p + k] < 128,
    ensures
        continuation(b, p) == k,
    decreases k,
{
    if k > 0 {
        assert(b[p] >= 128);
        lemma_continuation(b, p + 1, (k - 1) as nat);
    }
}

/// A varint is read as what was written, wherever it stands and whatever follows it.
pub proof fn law_varint(n: u64, before: Seq<u8>, after: Seq<u8>)
    ensures
        uvarint_at(before + varint_form(n as nat) + after, before.len() as int) == Ok::<
            (u64, int),
            crate::error::PqErrorView,
        >((n, (before.len() + varint_form(n as nat).len()) as int)),
{
    crate::varint::lemma_pow128_values();
    assert(pow128(10) == 128 * pow128(9));
    lemma_varint_at(n, before, after, 10);
}

/// The same of a varint of at most `limit` bytes that fits them.
pub proof fn lemma_varint_at(n: u64, before: Seq<u8>, after: Seq<u8>, limit: nat)
    requires
        n < pow128(limit),
        limit >= 1,
    ensures
        varint_at(before + varint_form(n as nat) + after, before.len() as int, limit)
            == (VarintView::Value {
            value: n,
            end: (before.len() + varint_form(n as nat).len()) as int,
        }),
{
    let w = varint_form(n as nat);
    let b = before + w + after;
    let p = before.len() as int;
    lemma_varint_form(n as nat);
    lemma_varint_len(n as nat, limit);
    let k = (w.len() - 1) as nat;
    assert forall|i: int| p <= i < p + k implies (#[trigger] b[i]) >= 128 by {
        assert(b[i] == w[i - p]);
    }
    assert(b[p + k] == w.last());
    lemma_continuation(b, p, k);
    assert(b.subrange(p, p + k + 1) =~= w);
    assert(TWO_64 as nat == 0x1_0000_0000_0000_0000);
}

/// The zigzag code of a signed number.
pub open spec fn zigzag_form(v: i64) -> u64 {
    if v >= 0 {
        (2 * v) as u64
    } else {
        (-2 * v - 1) as u64
    }
}

/// Each signed number has one zigzag code, and each code stands for one number.
pub proof fn law_zigzag(v: i64, u: u64)
    ensures
        zigzag(zigzag_form(v)) == v,
        zigzag_form(zigzag(u)) == u,
{
}

/// A zigzag varint is read as what was written, wherever it stands and whatever follows it.
pub proof fn law_zigzag_varint(v: i64, before: Seq<u8>, after: Seq<u8>)
    ensures
        ivarint_at(before + varint_form(zigzag_form(v) as nat) + after, before.len() as int)
            == Ok::<(i64, int), crate::error::PqErrorView>(
            (v, (before.len() + varint_form(zigzag_form(v) as nat).len()) as int),
        ),
{
    law_varint(zigzag_form(v), before, after);
    law_zigzag(v, 0);
}

/// A number in `k` bytes, least significant first; what does not fit is cut off.
pub open spec fn le_form(n: nat, k: nat) -> Seq<u8>
    decreases k,
{
    if k == 0 {
        seq![]
    } else {
        le_form(n, (k - 1) as nat).push((n / pow256((k - 1) as nat) % 256) as u8)
    }
}

/// The bytes of a number give it back, up to what they hold.
pub proof fn law_le(n: nat, k: nat)
    ensures
        le(le_form(n, k)) == n % pow256(k),
        le_form(n, k).len() == k,
    decreases k,
{
    if k == 0 {
        assert(n % 1 == 0);
    } else {
        let m = (k - 1) as nat;
        law_le(n, m);
        let s = le_form(n, k);
        assert(s.drop_last() =~= le_form(n, m));
        let w = pow256(m) as int;
        lemma_pow256_pos(m);
        let d = (n as int / w) % 256;
        assert(pow256(k) == 256 * pow256(m));
        assert(n as int % (256 * w) == n as int % w + d * w) by {
            lemma_mod_breakdown(n as int, w, 256);
            assert(w * 256 == 256 * w) by (nonlinear_arith);
            assert(w * d == d * w) by (nonlinear_arith);
        }
    }
}

pub proof fn lemma_pow256_pos(k: nat)
    ensures
        pow256(k) > 0,
    decreases k,
{
    if k > 0 {
        lemma_pow256_pos((k - 1) as nat);
    }
}

pub proof fn lemma_pow256_pow2(k: nat)
    ensures
        pow256(k) == pow2(8 * k),
    decreases k,
{
    lemma2_to64();
    if k > 0 {
        lemma_pow256_pow2((k - 1) as nat);
        lemma_pow2_adds(8, (8 * (k - 1)) as nat);
    }
}

pub(crate) proof fn lemma_le_form_index(n: nat, k: nat, i: int)
    requires
        0 <= i < k,
    ensures
        le_form(n, k)[i] == (n / pow256(i as nat) % 256) as u8,
        le_form(n, k).len() == k,
    decreases k,
{
    law_le(n, k);
    law_le(n, (k - 1) as nat);
    if i < k - 1 {
        lemma_le_form_index(n, (k - 1) as nat, i);
    }
}

proof fn lemma_low_bit(m: int, r: nat)
    requires
        0 <= m,
        r < 8,
    ensures
        (m % 256) / pow2(r) as int % 2 == m / pow2(r) as int % 2,
{
    lemma2_to64();
    let a = pow2(r) as int;
    let b = pow2((8 - r) as nat) as int;
    let h = pow2((7 - r) as nat) as int;
    lemma_pow2_pos(r);
    lemma_pow2_pos((8 - r) as nat);
    lemma_pow2_pos((7 - r) as nat);
    lemma_pow2_adds(r, (8 - r) as nat);
    lemma_pow2_unfold((8 - r) as nat);
    assert(a * b == 256);
    lemma_mod_breakdown(m, a, b);
    let q = (m / a) % b;
    lemma_div_multiples_vanish_fancy(q, m % a, a);
    assert((m % 256) / a == q);
    lemma_mod_mod(m / a, 2, h);
}

/// Bit `j` of a number's bytes is bit `j` of the number.
pub proof fn lemma_bit_form(n: nat, k: nat, j: int)
    requires
        0 <= j < 8 * k,
    ensures
        bit_at(le_form(n, k), j) == n / pow2(j as nat) % 2,
{
    let i = j / 8;
    let r = (j % 8) as nat;
    lemma_le_form_index(n, k, i);
    lemma_pow256_pow2(i as nat);
    lemma_pow2_pos((8 * i) as nat);
    lemma_pow2_pos(r);
    lemma_pow2_adds((8 * i) as nat, r);
    let m = n as int / pow2((8 * i) as nat) as int;
    lemma_low_bit(m, r);
    lemma_div_denominator(n as int, pow2((8 * i) as nat) as int, pow2(r) as int);
    assert(8 * i + r == j);
}

/// The `w` bits from bit `start` on of a number's bytes are those bits of the number.
pub proof fn law_bits(n: nat, k: nat, start: nat, w: nat)
    requires
        start + w <= 8 * k,
    ensures
        bits_at(le_form(n, k), start as int, w) == n / pow2(start) % pow2(w),
    decreases w,
{
    if w == 0 {
        lemma2_to64();
        lemma_pow2_pos(start);
        assert(n / pow2(start) % 1 == 0);
    } else {
        let v = (w - 1) as nat;
        law_bits(n, k, start, v);
        lemma_bit_form(n, k, start + w - 1);
        lemma_pow2_pos(start);
        lemma_pow2_pos(v);
        lemma_pow2_unfold(w);
        lemma_pow2_adds(start, v);
        let m = n as int / pow2(start) as int;
        let p = pow2(v) as int;
        lemma_div_denominator(n as int, pow2(start) as int, p);
        lemma_mod_breakdown(m, p, 2);
        let bit = (m / p) % 2;
        assert(p * bit == bit * p) by (nonlinear_arith);
        assert(p * 2 == pow2(w));
    }
}

/// A number in `k` bytes, most significant first; what does not fit is cut off.
pub open spec fn be_form(n: nat, k: nat) -> Seq<u8>
    decreases k,
{
    if k == 0 {
        seq![]
    } else {
        be_form(n / 256, (k - 1) as nat).push((n % 256) as u8)
    }
}

proof fn lemma_be(n: nat, k: nat)
    ensures
        be(be_form(n, k)) == n % pow256(k),
        be_form(n, k).len() == k,
    decreases k,
{
    if k == 0 {
        assert(n % 1 == 0);
    } else {
        let m = (k - 1) as nat;
        lemma_be(n / 256, m);
        let s = be_form(n, k);
        assert(s.drop_last() =~= be_form(n / 256, m));
        lemma_pow256_pos(m);
        lemma_mod_breakdown(n as int, 256, pow256(m) as int);
    }
}

proof fn lemma_be_first(n: nat, k: nat)
    requires
        n < pow256(k),
        k > 0,
    ensures
        be_form(n, k)[0] as nat == n / pow256((k - 1) as nat),
    decreases k,
{
    lemma_be(n, k);
    lemma_be(n / 256, (k - 1) as nat);
    if k == 1 {
        assert(pow256(0) == 1);
        assert(pow256(1) == 256 * pow256(0));
        assert(n / 1 == n);
    } else {
        let m = (k - 1) as nat;
        assert(pow256(k) == 256 * pow256(m));
        assert(pow256(m) == 256 * pow256((m - 1) as nat));
        lemma_pow256_pos((m - 1) as nat);
        lemma_be_first(n / 256, m);
        lemma_div_denominator(n as int, 256, pow256((m - 1) as nat) as int);
    }
}

/// A signed number in two's complement, as an unsigned one of `k` bytes.
pub open spec fn twos_form(v: int, k: nat) -> nat {
    if v < 0 {
        (v + pow256(k)) as nat
    } else {
        v as nat
    }
}

/// The bytes of a signed number, most significant first, give it back where it fits them.
pub proof fn law_be_signed(v: int, k: nat)
    requires
        k > 0,
        -pow256(k) <= 2 * v < pow256(k),
    ensures
        be_signed(be_form(twos_form(v, k), k)) == v,
        be_form(twos_form(v, k), k).len() == k,
{
    let n = twos_form(v, k);
    let w = pow256((k - 1) as nat);
    lemma_pow256_pos((k - 1) as nat);
    assert(pow256(k) == 256 * w);
    lemma_be(n, k);
    lemma_be_first(n, k);
    assert(n % pow256(k) == n) by {
        vstd::arithmetic::div_mod::lemma_small_mod(n, pow256(k));
    }
    let q = n as int / w as int;
    vstd::arithmetic::div_mod::lemma_fundamental_div_mod(n as int, w as int);
    let r = n as int % w as int;
    let ww = w as int;
    if v < 0 {
        assert(q >= 128) by (nonlinear_arith)
            requires
                n as int == ww * q + r,
                0 <= r < ww,
                n >= 128 * ww,
        ;
    } else {
        assert(q < 128) by (nonlinear_arith)
            requires
                n as int == ww * q + r,
                0 <= r < ww,
                n < 128 * ww,
        ;
    }
}

/// The four bytes of a signed number, least significant first, give it back.
pub proof fn law_i32(v: i32)
    ensures
        signed32(le(le_form(twos_form(v as int, 4), 4))) == v,
{
    crate::bytes::lemma_pow256_values();
    law_le(twos_form(v as int, 4), 4);
}

/// The eight bytes of a signed number, least significant first, give it back.
pub proof fn law_i64(v: i64)
    ensures
        signed64(le(le_form(twos_form(v as int, 8), 8))) == v,
{
    crate::bytes::lemma_pow256_values();
    law_le(twos_form(v as int, 8), 8);
}

} // verus!
