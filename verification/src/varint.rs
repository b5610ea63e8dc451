//! Unsigned LEB128 variable-length integers.
use vstd::prelude::*;

verus! {

/// Two to the power 64: the integers of a varint are kept modulo this.
pub const TWO_64: u128 = 0x1_0000_0000_0000_0000;

/// What stands at a position where a varint is expected.
#[derive(Clone, Copy)]
pub enum Varint {
    /// A complete varint: its value, and the position behind its last byte.
    Value { value: u64, end: usize },
    /// The input ends before the varint does.
    Truncated,
    /// The varint goes on for more bytes than the limit.
    TooLong,
}

/// What stands at a position where a varint is expected, over unbounded positions.
pub enum VarintView {
    Value { value: u64, end: int },
    Truncated,
    TooLong,
}

impl View for Varint {
    type V = VarintView;

    open spec fn view(&self) -> VarintView {
        match self {
            Varint::Value { value, end } => VarintView::Value { value: *value, end: *end as int },
            Varint::Truncated => VarintView::Truncated,
            Varint::TooLong => VarintView::TooLong,
        }
    }
}

/// How many bytes in a row, from position `p` on, have their high bit set.
pub open spec fn continuation(b: Seq<u8>, p: int) -> nat
    decreases b.len() - p,
{
    if 0 <= p < b.len() && b[p] >= 128 {
        1 + continuation(b, p + 1)
    } else {
        0
    }
}

/// 128 to the power `k`.
pub open spec fn pow128(k: nat) -> nat
    decreases k,
{
    if k == 0 {
        1
    } else {
        128 * pow128((k - 1) as nat)
    }
}

/// The number whose base-128 digits are the low seven bits of each byte, least significant
/// first.
pub open spec fn base128(s: Seq<u8>) -> nat
    decreases s.len(),
{
    if s.len() == 0 {
        0
    } else {
        base128(s.drop_last()) + (s.last() as nat % 128) * pow128((s.len() - 1) as nat)
    }
}

/// The varint of at most `limit` bytes at position `p`.
pub open spec fn varint_at(b: Seq<u8>, p: int, limit: nat) -> VarintView {
    let n = continuation(b, p);
    if n >= limit {
        if p + limit < b.len() {
            VarintView::TooLong
        } else {
            VarintView::Truncated
        }
    } else if p + n >= b.len() {
        VarintView::Truncated
    } else {
        VarintView::Value {
            value: (base128(b.subrange(p, p + n + 1)) % TWO_64 as nat) as u64,
            end: p + n + 1,
        }
    }
}

pub proof fn lemma_pow128_values()
    ensures
        pow128(0) == 1,
        pow128(1) == 128,
        pow128(2) == 0x4000,
        pow128(3) == 0x20_0000,
        pow128(4) == 0x1000_0000,
        pow128(5) == 0x8_0000_0000,
        pow128(6) == 0x400_0000_0000,
        pow128(7) == 0x2_0000_0000_0000,
        pow128(8) == 0x100_0000_0000_0000,
        pow128(9) == 0x8000_0000_0000_0000,
{
    reveal_with_fuel(pow128, 11);
}

proof fn lemma_base128_push(s: Seq<u8>, x: u8)
    ensures
        base128(s.push(x)) == base128(s) + (x as nat % 128) * pow128(s.len()),
{
    assert(s.push(x).drop_last() =~= s);
}

/// Reads the varint at position `p`.
pub fn read_varint(b: &[u8], p: usize, limit: usize) -> (r: Varint)
    requires
        p <= b@.len(),
        1 <= limit <= 10,
    ensures
        r@ == varint_at(b@, p as int, limit as nat),
        r matches Varint::Value { value, end } ==> p < end <= b@.len(),
{
    let mut k: usize = 0;
    let mut acc: u64 = 0;
    let mut scale: u64 = 1;
    proof {
        lemma_pow128_values();
        assert(b@.subrange(p as int, p as int) =~= Seq::<u8>::empty());
    }
    while k < limit && k < b.len() - p
        invariant
            p <= b@.len(),
            1 <= limit <= 10,
            k <= limit,
            k <= b@.len() - p,
            continuation(b@, p as int) == k + continuation(b@, p + k),
            k <= 9 ==> scale == pow128(k as nat),
            k <= 9 ==> acc < scale,
            k <= 9 ==> acc == base128(b@.subrange(p as int, p + k)),
        decreases limit - k,
    {
        let x: u8 = b[p + k];
        let d: u64 = (x % 128) as u64;
        proof {
            lemma_pow128_values();
            assert(b@.subrange(p as int, p + k + 1) =~= b@.subrange(p as int, p + k).push(x));
            lemma_base128_push(b@.subrange(p as int, p + k), x);
            assert(pow128((k + 1) as nat) == 128 * pow128(k as nat));
            assert(k <= 8 ==> pow128(k as nat) <= 0x100_0000_0000_0000) by {
                if k == 0 {} else if k == 1 {} else if k == 2 {} else if k == 3 {} else if k == 4 {
                } else if k == 5 {} else if k == 6 {} else if k == 7 {} else if k == 8 {}
            }
            assert(d * scale <= 127 * scale) by (nonlinear_arith)
                requires
                    d <= 127,
            ;
            assert(k == 9 ==> (d % 2) * scale <= scale && (d % 2) * scale >= 0) by (nonlinear_arith)
                requires
                    0 <= d % 2 <= 1,
            ;
        }
        let add: u64 = if k < 9 {
            d * scale
        } else {
            (d % 2) * scale
        };
        if x < 128 {
            let value: u64 = acc + add;
            proof {
                assert(continuation(b@, p + k) == 0);
                if k == 9 {
                    let whole = acc + d * scale;
                    assert(whole == value + (d / 2) * TWO_64) by {
                        assert(scale == 0x8000_0000_0000_0000);
                        assert(d == 2 * (d / 2) + d % 2);
                    }
                    vstd::arithmetic::div_mod::lemma_fundamental_div_mod_converse(
                        whole as int,
                        TWO_64 as int,
                        (d / 2) as int,
                        value as int,
                    );
                }
                assert(value == base128(b@.subrange(p as int, p + k + 1)) % (TWO_64 as nat));
            }
            return Varint::Value { value, end: p + k + 1 };
        }
        proof {
            assert(continuation(b@, p + k) == 1 + continuation(b@, p + k + 1));
        }
        if k < 9 {
            acc = acc + add;
            if k < 8 {
                scale = scale * 128;
            } else {
                scale = 0x8000_0000_0000_0000;
            }
        }
        k += 1;
    }
    if k == limit {
        if limit < b.len() - p {
            Varint::TooLong
        } else {
            Varint::Truncated
        }
    } else {
        Varint::Truncated
    }
}

} // verus!
