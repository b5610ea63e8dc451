//! Decimals in integers and in byte arrays, and floating-point numbers of 32 bits.
use vstd::prelude::*;

use crate::bytes::{lemma_pow256_values, pow256};
use crate::error::PqErrorView;
use crate::float::widened;
use crate::laws::numbers::{be_form, law_be_signed, law_i32, law_i64, law_le, le_form, twos_form};
use crate::laws::values::{
    int32_form, int64_form, joined, lemma_joined, lemma_joined_len, spec_of,
};
use crate::plain::{byte_arrays_at, plain_values, DecimalSpec, PlainSpec};
use crate::schema::Type;
use crate::value::PqV;

verus! {

/// A leaf of the type that holds decimals.
pub open spec fn decimal_spec(ptype: Type, precision: u32, scale: u32) -> PlainSpec {
    PlainSpec { ptype, flba_len: None, decimal: Some(DecimalSpec { precision, scale }) }
}

/// Decimals of up to 32 bits are read as they were written, sign and all, whatever follows them.
pub proof fn law_plain_int32_decimal(s: Seq<i32>, precision: u32, scale: u32, after: Seq<u8>)
    requires
        4 * s.len() <= usize::MAX,
    ensures
        plain_values(
            joined(int32_form(s)) + after,
            decimal_spec(Type::Int32, precision, scale),
            s.len(),
        ) == Ok::<Seq<PqV>, PqErrorView>(
            s.map_values(|v: i32| PqV::Decimal { unscaled: v as i128, scale: scale as i32 }),
        ),
{
    let parts = int32_form(s);
    let spec = decimal_spec(Type::Int32, precision, scale);
    assert forall|j: int| 0 <= j < parts.len() implies (#[trigger] parts[j]).len() == 4 by {
        law_le(twos_form(s[j] as int, 4), 4);
    }
    lemma_joined_len(parts, 4);
    let out = plain_values(joined(parts) + after, spec, s.len())->Ok_0;
    let want = s.map_values(
        |v: i32| PqV::Decimal { unscaled: v as i128, scale: scale as i32 },
    );
    assert forall|i: int| 0 <= i < s.len() implies #[trigger] out[i] == want[i] by {
        lemma_joined(parts, 4, after, i);
        law_i32(s[i]);
    }
    assert(out =~= want);
}

/// Decimals of up to 64 bits are read as they were written, sign and all, whatever follows them.
pub proof fn law_plain_int64_decimal(s: Seq<i64>, precision: u32, scale: u32, after: Seq<u8>)
    requires
        8 * s.len() <= usize::MAX,
    ensures
        plain_values(
            joined(int64_form(s)) + after,
            decimal_spec(Type::Int64, precision, scale),
            s.len(),
        ) == Ok::<Seq<PqV>, PqErrorView>(
            s.map_values(|v: i64| PqV::Decimal { unscaled: v as i128, scale: scale as i32 }),
        ),
{
    let parts = int64_form(s);
    let spec = decimal_spec(Type::Int64, precision, scale);
    assert forall|j: int| 0 <= j < parts.len() implies (#[trigger] parts[j]).len() == 8 by {
        law_le(twos_form(s[j] as int, 8), 8);
    }
    lemma_joined_len(parts, 8);
    let out = plain_values(joined(parts) + after, spec, s.len())->Ok_0;
    let want = s.map_values(
        |v: i64| PqV::Decimal { unscaled: v as i128, scale: scale as i32 },
    );
    assert forall|i: int| 0 <= i < s.len() implies #[trigger] out[i] == want[i] by {
        lemma_joined(parts, 8, after, i);
        law_i64(s[i]);
    }
    assert(out =~= want);
}

/// Bit patterns of 32-bit floating-point numbers in the PLAIN encoding.
pub open spec fn float_form(s: Seq<u32>) -> Seq<Seq<u8>> {
    s.map_values(|b: u32| le_form(b as nat, 4))
}

/// Floating-point numbers of 32 bits are read as they were written, each widened to 64 bits, whatever
/// follows them.
pub proof fn law_plain_float(s: Seq<u32>, after: Seq<u8>)
    requires
        4 * s.len() <= usize::MAX,
    ensures
        plain_values(joined(float_form(s)) + after, spec_of(Type::Float), s.len()) == Ok::<
            Seq<PqV>,
            PqErrorView,
        >(s.map_values(|b: u32| PqV::F64(widened(b)))),
{
    let parts = float_form(s);
    lemma_pow256_values();
    assert forall|j: int| 0 <= j < parts.len() implies (#[trigger] parts[j]).len() == 4 by {
        law_le(s[j] as nat, 4);
    }
    lemma_joined_len(parts, 4);
    let out = plain_values(joined(parts) + after, spec_of(Type::Float), s.len())->Ok_0;
    assert forall|i: int| 0 <= i < s.len() implies #[trigger] out[i] == PqV::F64(widened(s[i])) by {
        lemma_joined(parts, 4, after, i);
        law_le(s[i] as nat, 4);
    }
    assert(out =~= s.map_values(|b: u32| PqV::F64(widened(b))));
}

/// A decimal in a byte array of `k` bytes in the PLAIN encoding: the length, then the bytes of the
/// number in two's complement, most significant first.
pub open spec fn byte_array_decimal_form(v: i128, k: nat) -> Seq<u8> {
    le_form(k, 4) + be_form(twos_form(v as int, k), k)
}

/// Decimals in byte arrays in the PLAIN encoding, each in as many bytes as its writer gave it.
pub open spec fn byte_array_decimals_form(s: Seq<(i128, nat)>) -> Seq<u8>
    decreases s.len(),
{
    if s.len() == 0 {
        seq![]
    } else {
        byte_array_decimals_form(s.drop_last()) + byte_array_decimal_form(s.last().0, s.last().1)
    }
}

/// Whether each number fits the bytes it was given.
pub open spec fn decimals_fit(s: Seq<(i128, nat)>) -> bool {
    forall|i: int|
        #![trigger s[i]]
        0 <= i < s.len() ==> 1 <= s[i].1 <= 16 && -pow256(s[i].1) <= 2 * s[i].0 < pow256(s[i].1)
}

#[verifier::rlimit(40)]
proof fn lemma_byte_array_decimals(
    s: Seq<(i128, nat)>,
    precision: u32,
    scale: u32,
    after: Seq<u8>,
)
    requires
        decimals_fit(s),
        (byte_array_decimals_form(s) + after).len() <= usize::MAX,
    ensures
        byte_arrays_at(
            byte_array_decimals_form(s) + after,
            0,
            s.len(),
            Some(DecimalSpec { precision, scale }),
        ) == Ok::<(Seq<PqV>, int), PqErrorView>(
            (
                s.map_values(
                    |x: (i128, nat)| PqV::Decimal { unscaled: x.0, scale: scale as i32 },
                ),
                byte_array_decimals_form(s).len() as int,
            ),
        ),
    decreases s.len(),
{
    let all = s.map_values(|x: (i128, nat)| PqV::Decimal { unscaled: x.0, scale: scale as i32 });
    if s.len() == 0 {
        assert(all =~= Seq::<PqV>::empty());
    } else {
        let front = s.drop_last();
        let (v, k) = s.last();
        assert(s[s.len() - 1] == (v, k));
        assert(decimals_fit(front)) by {
            assert forall|i: int|
                #![trigger front[i]]
                0 <= i < front.len() implies 1 <= front[i].1 <= 16 && -pow256(front[i].1) <= 2
                * front[i].0 < pow256(front[i].1) by {
                assert(front[i] == s[i]);
            }
        }
        let f = byte_array_decimal_form(v, k);
        let b = byte_array_decimals_form(front);
        let d = byte_array_decimals_form(s) + after;
        assert(d =~= b + (f + after));
        lemma_byte_array_decimals(front, precision, scale, f + after);
        lemma_pow256_values();
        law_le(k, 4);
        law_be_signed(v as int, k);
        let p = b.len() as int;
        assert(d.subrange(p, p + 4) =~= le_form(k, 4));
        assert(d.subrange(p + 4, p + 4 + k) =~= be_form(twos_form(v as int, k), k));
        assert(all =~= front.map_values(
            |x: (i128, nat)| PqV::Decimal { unscaled: x.0, scale: scale as i32 },
        ).push(PqV::Decimal { unscaled: v, scale: scale as i32 }));
    }
}

/// Decimals in byte arrays are read as they were written, sign and all, whatever number of bytes each
/// was given and whatever follows them.
pub proof fn law_plain_byte_array_decimal(
    s: Seq<(i128, nat)>,
    precision: u32,
    scale: u32,
    after: Seq<u8>,
)
    requires
        decimals_fit(s),
        (byte_array_decimals_form(s) + after).len() <= usize::MAX,
    ensures
        plain_values(
            byte_array_decimals_form(s) + after,
            decimal_spec(Type::ByteArray, precision, scale),
            s.len(),
        ) == Ok::<Seq<PqV>, PqErrorView>(
            s.map_values(|x: (i128, nat)| PqV::Decimal { unscaled: x.0, scale: scale as i32 }),
        ),
{
    lemma_byte_array_decimals(s, precision, scale, after);
}

} // verus!
