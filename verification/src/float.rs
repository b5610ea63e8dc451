//! Widening of binary32 bit patterns to binary64.
use vstd::prelude::*;

verus! {

/// Scales a fraction and its exponent up to a fraction of 24 bits.
pub open spec fn normalized(m: nat, e: int) -> (nat, int)
    decreases 0x100_0000 - m,
{
    if m == 0 || m >= 0x80_0000 {
        (m, e)
    } else {
        normalized(2 * m, e - 1)
    }
}

/// The binary64 pattern of the number that a binary32 pattern stands for. The sign stays; a NaN
/// stays one, is made quiet and keeps its payload; an infinity stays one; every other number is
/// written with the same value, which binary64 can hold without rounding.
pub open spec fn widened(b: u32) -> u64 {
    let sign = (b / 0x8000_0000) as int;
    let e = ((b / 0x80_0000) % 256) as int;
    let m = (b % 0x80_0000) as nat;
    let rest: int = if e == 255 {
        let quiet: int = if 0 < m < 0x40_0000 {
            m as int + 0x40_0000
        } else {
            m as int
        };
        2047 * 0x10_0000_0000_0000int + quiet * 0x2000_0000
    } else if e > 0 {
        (e + 896) * 0x10_0000_0000_0000 + m * 0x2000_0000
    } else if m == 0 {
        0
    } else {
        let (f, x) = normalized(m, 1);
        (x + 896) * 0x10_0000_0000_0000 + (f - 0x80_0000) * 0x2000_0000
    };
    (sign * 0x8000_0000_0000_0000 + rest) as u64
}

proof fn lemma_normalized_steps(m: nat, e: int, k: nat)
    requires
        0 < m < 0x100_0000,
        k <= 23,
        m * vstd::arithmetic::power2::pow2(k) >= 0x80_0000,
    ensures
        0x80_0000 <= normalized(m, e).0 < 0x100_0000,
        e - k <= normalized(m, e).1 <= e,
    decreases k,
{
    vstd::arithmetic::power2::lemma2_to64();
    if m < 0x80_0000 {
        if k == 0 {
            assert(m * 1 == m);
        } else {
            vstd::arithmetic::power2::lemma_pow2_unfold(k);
            let p = vstd::arithmetic::power2::pow2((k - 1) as nat);
            assert((2 * m) * p == m * (2 * p)) by (nonlinear_arith);
            lemma_normalized_steps(2 * m, e - 1, (k - 1) as nat);
        }
    }
}

/// The binary64 pattern of the number that a binary32 pattern stands for.
pub fn widen(b: u32) -> (r: u64)
    ensures
        r == widened(b),
{
    let sign: u64 = (b / 0x8000_0000) as u64;
    let e: u64 = ((b / 0x80_0000) % 256) as u64;
    let m: u64 = (b % 0x80_0000) as u64;
    let rest: u64 = if e == 255 {
        let q: u64 = if 0 < m && m < 0x40_0000 {
            m + 0x40_0000
        } else {
            m
        };
        0x7ff0_0000_0000_0000 + q * 0x2000_0000
    } else if e > 0 {
        (e + 896) * 0x10_0000_0000_0000 + m * 0x2000_0000
    } else if m == 0 {
        0
    } else {
        let mut f: u64 = m;
        let mut x: u64 = 897;
        proof {
            vstd::arithmetic::power2::lemma2_to64();
            lemma_normalized_steps(m as nat, 1, 23);
        }
        while f < 0x80_0000
            invariant
                0 < f < 0x100_0000,
                normalized(m as nat, 1) == normalized(f as nat, x - 896),
                0x80_0000 <= normalized(m as nat, 1).0 < 0x100_0000,
                -22 <= normalized(m as nat, 1).1 <= 1,
                x - 896 >= normalized(m as nat, 1).1,
                x <= 897,
            decreases 0x100_0000 - f,
        {
            proof {
                lemma_normalized_le(2 * f as nat, x - 897);
            }
            f = f * 2;
            x = x - 1;
        }
        x * 0x10_0000_0000_0000 + (f - 0x80_0000) * 0x2000_0000
    };
    sign * 0x8000_0000_0000_0000 + rest
}

proof fn lemma_normalized_le(m: nat, e: int)
    ensures
        normalized(m, e).1 <= e,
    decreases 0x100_0000 - m,
{
    if m != 0 && m < 0x80_0000 {
        lemma_normalized_le(2 * m, e - 1);
    }
}

} // verus!
