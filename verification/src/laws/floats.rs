//! Floating-point numbers, by their bits.
use vstd::arithmetic::power2::{lemma2_to64, lemma_pow2_adds, lemma_pow2_unfold, pow2};
use vstd::prelude::*;

use crate::float::{normalized, widened};

verus! {

/// The exponent field of a binary32 number.
pub open spec fn exponent32(b: u32) -> int {
    ((b / 0x80_0000) % 256) as int
}

/// The size of a finite binary32 number, as a multiple of two to the power of -149.
pub open spec fn magnitude32(b: u32) -> nat {
    let m = (b % 0x80_0000) as nat;
    if exponent32(b) == 0 {
        m
    } else {
        (0x80_0000 + m) * pow2((exponent32(b) - 1) as nat)
    }
}

/// The exponent field of a binary64 number.
pub open spec fn exponent64(b: u64) -> int {
    ((b / 0x10_0000_0000_0000) % 2048) as int
}

/// The size of a finite binary64 number, as a multiple of two to the power of -1074.
pub open spec fn magnitude64(b: u64) -> nat {
    let m = (b % 0x10_0000_0000_0000) as nat;
    if exponent64(b) == 0 {
        m
    } else {
        (0x10_0000_0000_0000 + m) * pow2((exponent64(b) - 1) as nat)
    }
}

proof fn lemma_normalized(m: nat, e: int, k: nat)
    requires
        0 < m < 0x100_0000,
        k <= 23,
        m * pow2(k) >= 0x80_0000,
    ensures
        0x80_0000 <= normalized(m, e).0 < 0x100_0000,
        e - k <= normalized(m, e).1 <= e,
        normalized(m, e).0 == m * pow2((e - normalized(m, e).1) as nat),
    decreases k,
{
    lemma2_to64();
    if m >= 0x80_0000 {
        assert(m * 1 == m);
    } else if k == 0 {
        assert(m * 1 == m);
    } else {
        lemma_pow2_unfold(k);
        let p = pow2((k - 1) as nat);
        assert((2 * m) * p == m * (2 * p)) by (nonlinear_arith);
        lemma_normalized(2 * m, e - 1, (k - 1) as nat);
        let t = (e - 1 - normalized(m, e).1) as nat;
        lemma_pow2_unfold((t + 1) as nat);
        let q = pow2(t);
        assert((2 * m) * q == m * (2 * q)) by (nonlinear_arith);
    }
}

proof fn lemma_scale(f: nat, x: nat, y: nat, z: nat)
    requires
        29 + x == y + z,
    ensures
        f * 0x2000_0000 * pow2(x) == f * pow2(y) * pow2(z),
{
    lemma2_to64();
    lemma_pow2_adds(29, x);
    lemma_pow2_adds(y, z);
    let a = pow2(x);
    let b = pow2(y);
    let c = pow2(z);
    assert(f * 0x2000_0000 * a == f * (0x2000_0000 * a)) by (nonlinear_arith);
    assert(f * b * c == f * (b * c)) by (nonlinear_arith);
}

/// Widening keeps the sign, keeps the value of every finite number, and keeps infinities and NaNs
/// apart from the numbers and from each other.
pub proof fn law_widened(b: u32)
    ensures
        widened(b) / 0x8000_0000_0000_0000 == b / 0x8000_0000,
        exponent32(b) != 255 ==> exponent64(widened(b)) != 2047 && magnitude64(widened(b))
            == magnitude32(b) * pow2(925),
        exponent32(b) == 255 ==> exponent64(widened(b)) == 2047 && (b % 0x80_0000 == 0
            <==> widened(b) % 0x10_0000_0000_0000 == 0),
{
    let w = widened(b);
    let sign = (b / 0x8000_0000) as int;
    let e = exponent32(b);
    let m = (b % 0x80_0000) as nat;
    lemma2_to64();
    if e == 255 {
    } else if e > 0 {
        assert(w == sign * 0x8000_0000_0000_0000 + (e + 896) * 0x10_0000_0000_0000 + m
            * 0x2000_0000);
        assert(exponent64(w) == e + 896);
        assert(w % 0x10_0000_0000_0000 == m * 0x2000_0000);
        lemma_scale((0x80_0000 + m) as nat, (e + 895) as nat, (e - 1) as nat, 925);
    } else if m == 0 {
        assert(magnitude32(b) == 0);
        assert(0 * pow2(925) == 0) by (nonlinear_arith);
    } else {
        lemma_normalized(m, 1, 23);
        let (f, x) = normalized(m, 1);
        assert(w == sign * 0x8000_0000_0000_0000 + (x + 896) * 0x10_0000_0000_0000 + (f
            - 0x80_0000) * 0x2000_0000);
        assert(exponent64(w) == x + 896);
        assert(w % 0x10_0000_0000_0000 == (f - 0x80_0000) * 0x2000_0000);
        let t = (1 - x) as nat;
        lemma_scale(f, (x + 895) as nat, 0, (x + 924) as nat);
        assert(f * pow2(0) == f) by {
            assert(f * 1 == f);
        }
        lemma_pow2_adds(t, (x + 924) as nat);
        let p = pow2(t);
        let q = pow2((x + 924) as nat);
        assert(m * p * q == m * (p * q)) by (nonlinear_arith);
    }
}

} // verus!
