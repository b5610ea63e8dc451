//! Values in the PLAIN encoding, in dictionaries, and spread over the slots of a page.
use vstd::arithmetic::power2::lemma2_to64;
use vstd::prelude::*;

use crate::bytes::pow256;
use crate::dict::{dict_values, looked_up};
use crate::error::PqErrorView;
use crate::laws::levels::{
    law_hybrid, lemma_packed_number, packed_number, run_ok, runs_form, runs_values, Run,
};
use crate::laws::numbers::{
    be_form, law_be_signed, law_i32, law_i64, law_le, le_form, lemma_bit_form, twos_form,
};
use crate::page::{occurrences, scattered};
use crate::plain::{
    byte_array_at, byte_arrays_at, fixed_slot, int96_value, int96_values, plain_values, DecimalSpec,
    PlainSpec, JULIAN_UNIX_EPOCH, NS_PER_DAY,
};
use crate::schema::Type;
use crate::value::PqV;

verus! {

/// Parts one after the other.
pub open spec fn joined(parts: Seq<Seq<u8>>) -> Seq<u8>
    decreases parts.len(),
{
    if parts.len() == 0 {
        seq![]
    } else {
        joined(parts.drop_last()) + parts.last()
    }
}

pub(crate) proof fn lemma_joined(parts: Seq<Seq<u8>>, w: nat, after: Seq<u8>, i: int)
    requires
        0 <= i < parts.len(),
        forall|j: int| 0 <= j < parts.len() ==> (#[trigger] parts[j]).len() == w,
    ensures
        joined(parts).len() == parts.len() * w,
        fixed_slot(joined(parts) + after, i, w) == parts[i],
    decreases parts.len(),
{
    let front = parts.drop_last();
    let last = parts.last();
    assert(last == parts[parts.len() - 1]);
    assert forall|j: int| 0 <= j < front.len() implies (#[trigger] front[j]).len() == w by {
        assert(front[j] == parts[j]);
    }
    lemma_joined_len(front, w);
    assert(parts.len() * w == front.len() * w + w) by (nonlinear_arith)
        requires
            parts.len() == front.len() + 1,
    ;
    if i < front.len() {
        lemma_joined(front, w, last + after, i);
        assert(joined(front) + (last + after) =~= joined(parts) + after);
    } else {
        assert(i == front.len());
        assert((joined(parts) + after).subrange(i * w, i * w + w) =~= last) by {
            assert(i * w == front.len() * w) by (nonlinear_arith)
                requires
                    i == front.len(),
            ;
        }
    }
}

pub(crate) proof fn lemma_joined_len(parts: Seq<Seq<u8>>, w: nat)
    requires
        forall|j: int| 0 <= j < parts.len() ==> (#[trigger] parts[j]).len() == w,
    ensures
        joined(parts).len() == parts.len() * w,
    decreases parts.len(),
{
    if parts.len() == 0 {
        assert(0 * w == 0) by (nonlinear_arith);
    } else {
        let front = parts.drop_last();
        assert forall|j: int| 0 <= j < front.len() implies (#[trigger] front[j]).len() == w by {
            assert(front[j] == parts[j]);
        }
        lemma_joined_len(front, w);
        assert(parts.last() == parts[parts.len() - 1]);
        assert(parts.len() * w == front.len() * w + w) by (nonlinear_arith)
            requires
                parts.len() == front.len() + 1,
        ;
    }
}

/// A leaf of the type, without decimals.
pub open spec fn spec_of(ptype: Type) -> PlainSpec {
    PlainSpec { ptype, flba_len: None, decimal: None }
}

/// 64-bit integers in the PLAIN encoding.
pub open spec fn int64_form(s: Seq<i64>) -> Seq<Seq<u8>> {
    s.map_values(|v: i64| le_form(twos_form(v as int, 8), 8))
}

/// 64-bit integers are read as they were written, whatever follows them.
pub proof fn law_plain_int64(s: Seq<i64>, after: Seq<u8>)
    requires
        8 * s.len() <= usize::MAX,
    ensures
        plain_values(joined(int64_form(s)) + after, spec_of(Type::Int64), s.len()) == Ok::<
            Seq<PqV>,
            PqErrorView,
        >(s.map_values(|v: i64| PqV::I64(v))),
{
    let parts = int64_form(s);
    let d = joined(parts) + after;
    assert forall|j: int| 0 <= j < parts.len() implies (#[trigger] parts[j]).len() == 8 by {
        law_le(twos_form(s[j] as int, 8), 8);
    }
    lemma_joined_len(parts, 8);
    let out = plain_values(d, spec_of(Type::Int64), s.len())->Ok_0;
    assert forall|i: int| 0 <= i < s.len() implies #[trigger] out[i] == PqV::I64(s[i]) by {
        lemma_joined(parts, 8, after, i);
        law_i64(s[i]);
    }
    assert(out =~= s.map_values(|v: i64| PqV::I64(v)));
}

/// 32-bit integers in the PLAIN encoding.
pub open spec fn int32_form(s: Seq<i32>) -> Seq<Seq<u8>> {
    s.map_values(|v: i32| le_form(twos_form(v as int, 4), 4))
}

/// 32-bit integers are read as they were written, whatever follows them.
pub proof fn law_plain_int32(s: Seq<i32>, after: Seq<u8>)
    requires
        4 * s.len() <= usize::MAX,
    ensures
        plain_values(joined(int32_form(s)) + after, spec_of(Type::Int32), s.len()) == Ok::<
            Seq<PqV>,
            PqErrorView,
        >(s.map_values(|v: i32| PqV::I64(v as i64))),
{
    let parts = int32_form(s);
    let d = joined(parts) + after;
    assert forall|j: int| 0 <= j < parts.len() implies (#[trigger] parts[j]).len() == 4 by {
        law_le(twos_form(s[j] as int, 4), 4);
    }
    lemma_joined_len(parts, 4);
    let out = plain_values(d, spec_of(Type::Int32), s.len())->Ok_0;
    assert forall|i: int| 0 <= i < s.len() implies #[trigger] out[i] == PqV::I64(s[i] as i64) by {
        lemma_joined(parts, 4, after, i);
        law_i32(s[i]);
    }
    assert(out =~= s.map_values(|v: i32| PqV::I64(v as i64)));
}

/// Binary64 numbers, by their bits, in the PLAIN encoding.
pub open spec fn double_form(s: Seq<u64>) -> Seq<Seq<u8>> {
    s.map_values(|b: u64| le_form(b as nat, 8))
}

/// Binary64 numbers are read bit for bit as they were written, whatever follows them.
pub proof fn law_plain_double(s: Seq<u64>, after: Seq<u8>)
    requires
        8 * s.len() <= usize::MAX,
    ensures
        plain_values(joined(double_form(s)) + after, spec_of(Type::Double), s.len()) == Ok::<
            Seq<PqV>,
            PqErrorView,
        >(s.map_values(|b: u64| PqV::F64(b))),
{
    let parts = double_form(s);
    let d = joined(parts) + after;
    crate::bytes::lemma_pow256_values();
    assert forall|j: int| 0 <= j < parts.len() implies (#[trigger] parts[j]).len() == 8 by {
        law_le(s[j] as nat, 8);
    }
    lemma_joined_len(parts, 8);
    let out = plain_values(d, spec_of(Type::Double), s.len())->Ok_0;
    assert forall|i: int| 0 <= i < s.len() implies #[trigger] out[i] == PqV::F64(s[i]) by {
        lemma_joined(parts, 8, after, i);
        law_le(s[i] as nat, 8);
    }
    assert(out =~= s.map_values(|b: u64| PqV::F64(b)));
}

/// Decimals in fixed-length byte arrays of `n` bytes in the PLAIN encoding.
pub open spec fn flba_decimal_form(s: Seq<i128>, n: nat) -> Seq<Seq<u8>> {
    s.map_values(|v: i128| be_form(twos_form(v as int, n), n))
}

/// Decimals in fixed-length byte arrays are read as they were written, whatever follows them.
pub proof fn law_plain_flba_decimal(
    s: Seq<i128>,
    n: usize,
    precision: u32,
    scale: u32,
    after: Seq<u8>,
)
    requires
        1 <= n <= 16,
        n * s.len() <= usize::MAX,
        forall|i: int|
            0 <= i < s.len() ==> -pow256(n as nat) <= 2 * (#[trigger] s[i]) < pow256(n as nat),
    ensures
        plain_values(
            joined(flba_decimal_form(s, n as nat)) + after,
            PlainSpec {
                ptype: Type::FixedLenByteArray,
                flba_len: Some(n),
                decimal: Some(DecimalSpec { precision, scale }),
            },
            s.len(),
        ) == Ok::<Seq<PqV>, PqErrorView>(
            s.map_values(|v: i128| PqV::Decimal { unscaled: v, scale: scale as i32 }),
        ),
{
    let w = n as nat;
    let spec = PlainSpec {
        ptype: Type::FixedLenByteArray,
        flba_len: Some(n),
        decimal: Some(DecimalSpec { precision, scale }),
    };
    let parts = flba_decimal_form(s, w);
    let d = joined(parts) + after;
    assert forall|j: int| 0 <= j < parts.len() implies (#[trigger] parts[j]).len() == w by {
        assert(parts[j] == be_form(twos_form(s[j] as int, w), w));
        law_be_signed(s[j] as int, w);
    }
    lemma_joined_len(parts, w);
    assert(s.len() * w == n * s.len()) by (nonlinear_arith)
        requires
            w == n,
    ;
    let out = plain_values(d, spec, s.len())->Ok_0;
    let want = s.map_values(|v: i128| PqV::Decimal { unscaled: v, scale: scale as i32 });
    assert forall|i: int| 0 <= i < s.len() implies #[trigger] out[i] == want[i] by {
        lemma_joined(parts, w, after, i);
        law_be_signed(s[i] as int, w);
    }
    assert(out =~= want);
}

/// A byte array in the PLAIN encoding: its length, then its bytes.
pub open spec fn byte_array_form(s: Seq<u8>) -> Seq<u8> {
    le_form(s.len(), 4) + s
}

/// Byte arrays in the PLAIN encoding.
pub open spec fn byte_arrays_form(s: Seq<Seq<u8>>) -> Seq<u8>
    decreases s.len(),
{
    if s.len() == 0 {
        seq![]
    } else {
        byte_arrays_form(s.drop_last()) + byte_array_form(s.last())
    }
}

proof fn lemma_byte_array(before: Seq<u8>, s: Seq<u8>, after: Seq<u8>)
    requires
        s.len() <= u32::MAX,
        (before + byte_array_form(s) + after).len() <= usize::MAX,
    ensures
        byte_array_at(before + byte_array_form(s) + after, before.len() as int, None) == Ok::<
            (PqV, int),
            PqErrorView,
        >((PqV::Bytes(s), (before.len() + 4 + s.len()) as int)),
{
    let d = before + byte_array_form(s) + after;
    let p = before.len() as int;
    law_le(s.len(), 4);
    crate::bytes::lemma_pow256_values();
    assert(d.subrange(p, p + 4) =~= le_form(s.len(), 4));
    assert(d.subrange(p + 4, p + 4 + s.len()) =~= s);
}

proof fn lemma_byte_arrays(s: Seq<Seq<u8>>, after: Seq<u8>)
    requires
        forall|i: int| 0 <= i < s.len() ==> (#[trigger] s[i]).len() <= u32::MAX,
        (byte_arrays_form(s) + after).len() <= usize::MAX,
    ensures
        byte_arrays_at(byte_arrays_form(s) + after, 0, s.len(), None) == Ok::<
            (Seq<PqV>, int),
            PqErrorView,
        >((s.map_values(|b: Seq<u8>| PqV::Bytes(b)), byte_arrays_form(s).len() as int)),
    decreases s.len(),
{
    let all = s.map_values(|b: Seq<u8>| PqV::Bytes(b));
    if s.len() == 0 {
        assert(all =~= Seq::<PqV>::empty());
    } else {
        let front = s.drop_last();
        let last = s.last();
        assert(last == s[s.len() - 1]);
        assert forall|i: int| 0 <= i < front.len() implies (#[trigger] front[i]).len()
            <= u32::MAX by {
            assert(front[i] == s[i]);
        }
        let d = byte_arrays_form(s) + after;
        assert(d =~= byte_arrays_form(front) + (byte_array_form(last) + after));
        lemma_byte_arrays(front, byte_array_form(last) + after);
        assert(d =~= byte_arrays_form(front) + byte_array_form(last) + after);
        lemma_byte_array(byte_arrays_form(front), last, after);
        law_le(last.len(), 4);
        assert(all =~= front.map_values(|b: Seq<u8>| PqV::Bytes(b)).push(PqV::Bytes(last)));
    }
}

/// Byte arrays are read as they were written, whatever follows them.
pub proof fn law_plain_byte_array(s: Seq<Seq<u8>>, after: Seq<u8>)
    requires
        forall|i: int| 0 <= i < s.len() ==> (#[trigger] s[i]).len() <= u32::MAX,
        (byte_arrays_form(s) + after).len() <= usize::MAX,
    ensures
        plain_values(byte_arrays_form(s) + after, spec_of(Type::ByteArray), s.len()) == Ok::<
            Seq<PqV>,
            PqErrorView,
        >(s.map_values(|b: Seq<u8>| PqV::Bytes(b))),
{
    lemma_byte_arrays(s, after);
}

/// Truth values as numbers of one bit.
pub open spec fn bits_of(s: Seq<bool>) -> Seq<u64> {
    s.map_values(
        |b: bool|
            if b {
                1u64
            } else {
                0u64
            },
    )
}

/// Truth values in the PLAIN encoding: one bit each, the first lowest.
pub open spec fn boolean_form(s: Seq<bool>) -> Seq<u8> {
    le_form(packed_number(bits_of(s), 1), (s.len() + 7) / 8)
}

/// Truth values are read as they were written, whatever follows them.
pub proof fn law_plain_boolean(s: Seq<bool>, after: Seq<u8>)
    ensures
        plain_values(boolean_form(s) + after, spec_of(Type::Boolean), s.len()) == Ok::<
            Seq<PqV>,
            PqErrorView,
        >(s.map_values(|b: bool| PqV::Bool(b))),
{
    let n = packed_number(bits_of(s), 1);
    let k = (s.len() + 7) / 8;
    let f = boolean_form(s);
    let d = f + after;
    law_le(n, k);
    lemma2_to64();
    let out = plain_values(d, spec_of(Type::Boolean), s.len())->Ok_0;
    assert forall|i: int| 0 <= i < s.len() implies #[trigger] out[i] == PqV::Bool(s[i]) by {
        assert(d[i / 8] == f[i / 8]);
        lemma_bit_form(n, k, i);
        lemma_packed_number(bits_of(s), 1, i as nat);
        assert(1 * (i as nat) == i);
        assert(bits_of(s)[i] == if s[i] {
            1u64
        } else {
            0u64
        });
    }
    assert(out =~= s.map_values(|b: bool| PqV::Bool(b)));
}

/// Byte arrays of `n` bytes are read as they were written, whatever follows them.
pub proof fn law_plain_flba(s: Seq<Seq<u8>>, n: usize, after: Seq<u8>)
    requires
        n >= 1,
        n * s.len() <= usize::MAX,
        forall|i: int| 0 <= i < s.len() ==> (#[trigger] s[i]).len() == n,
    ensures
        plain_values(
            joined(s) + after,
            PlainSpec { ptype: Type::FixedLenByteArray, flba_len: Some(n), decimal: None },
            s.len(),
        ) == Ok::<Seq<PqV>, PqErrorView>(s.map_values(|b: Seq<u8>| PqV::Bytes(b))),
{
    let spec = PlainSpec { ptype: Type::FixedLenByteArray, flba_len: Some(n), decimal: None };
    let w = n as nat;
    let d = joined(s) + after;
    lemma_joined_len(s, w);
    assert(s.len() * w == n * s.len()) by (nonlinear_arith)
        requires
            w == n,
    ;
    let out = plain_values(d, spec, s.len())->Ok_0;
    assert forall|i: int| 0 <= i < s.len() implies #[trigger] out[i] == PqV::Bytes(s[i]) by {
        lemma_joined(s, w, after, i);
    }
    assert(out =~= s.map_values(|b: Seq<u8>| PqV::Bytes(b)));
}

/// A point in time in twelve bytes: the nanoseconds of its day, then its Julian day.
pub open spec fn int96_form(t: i64) -> Seq<u8> {
    le_form((t as int % 86_400_000_000_000) as nat, 8) + le_form(
        (t as int / 86_400_000_000_000 + 2_440_588) as nat,
        4,
    )
}

proof fn lemma_int96(t: i64)
    ensures
        int96_form(t).len() == 12,
        int96_value(int96_form(t)) == Ok::<PqV, PqErrorView>(PqV::Timestamp(t))
            || (t as int / NS_PER_DAY as int) * NS_PER_DAY < i64::MIN,
{
    let ns = (t as int % NS_PER_DAY as int) as nat;
    let day = (t as int / NS_PER_DAY as int + JULIAN_UNIX_EPOCH) as nat;
    let s = int96_form(t);
    crate::bytes::lemma_pow256_values();
    law_le(ns, 8);
    law_le(day, 4);
    assert(s.subrange(0, 8) =~= le_form(ns, 8));
    assert(s.subrange(8, 12) =~= le_form(day, 4));
}

/// Points in time are read as they were written, whatever follows them. The times before the first
/// whole day that 64 bits of nanoseconds reach back to are left out.
pub proof fn law_plain_int96(s: Seq<i64>, after: Seq<u8>)
    requires
        12 * s.len() <= usize::MAX,
        forall|i: int|
            0 <= i < s.len() ==> ((#[trigger] s[i]) as int / NS_PER_DAY as int) * NS_PER_DAY
                >= i64::MIN,
    ensures
        plain_values(
            joined(s.map_values(|t: i64| int96_form(t))) + after,
            spec_of(Type::Int96),
            s.len(),
        ) == Ok::<Seq<PqV>, PqErrorView>(s.map_values(|t: i64| PqV::Timestamp(t))),
{
    let parts = s.map_values(|t: i64| int96_form(t));
    let d = joined(parts) + after;
    assert forall|j: int| 0 <= j < parts.len() implies (#[trigger] parts[j]).len() == 12 by {
        lemma_int96(s[j]);
    }
    lemma_joined_len(parts, 12);
    lemma_int96_values(s, after, s.len());
    let all = s.map_values(|t: i64| PqV::Timestamp(t));
    assert(all.take(s.len() as int) =~= all);
}

proof fn lemma_int96_values(s: Seq<i64>, after: Seq<u8>, k: nat)
    requires
        k <= s.len(),
        forall|i: int|
            0 <= i < s.len() ==> ((#[trigger] s[i]) as int / NS_PER_DAY as int) * NS_PER_DAY
                >= i64::MIN,
    ensures
        int96_values(joined(s.map_values(|t: i64| int96_form(t))) + after, k) == Ok::<
            Seq<PqV>,
            PqErrorView,
        >(s.map_values(|t: i64| PqV::Timestamp(t)).take(k as int)),
    decreases k,
{
    let parts = s.map_values(|t: i64| int96_form(t));
    let all = s.map_values(|t: i64| PqV::Timestamp(t));
    if k == 0 {
        assert(all.take(0) =~= Seq::<PqV>::empty());
    } else {
        assert forall|j: int| 0 <= j < parts.len() implies (#[trigger] parts[j]).len() == 12 by {
            lemma_int96(s[j]);
        }
        lemma_int96_values(s, after, (k - 1) as nat);
        lemma_joined(parts, 12, after, k - 1);
        lemma_int96(s[k - 1]);
        assert(all.take(k as int) =~= all.take(k - 1).push(all[k - 1]));
    }
}

/// A page of dictionary indices gives the dictionary's values at the indices that were written.
pub proof fn law_dictionary(s: Seq<Run>, w: u8, n: nat, dict: Seq<PqV>)
    requires
        w <= 64,
        forall|i: int| 0 <= i < s.len() ==> run_ok(#[trigger] s[i], w as nat),
        n <= runs_values(s).len(),
        runs_form(s, w as nat).len() <= usize::MAX,
        forall|i: int| 0 <= i < n ==> (#[trigger] runs_values(s)[i]) < dict.len(),
    ensures
        dict_values(seq![w] + runs_form(s, w as nat), dict, n) == Ok::<Seq<PqV>, PqErrorView>(
            Seq::new(n, |i: int| dict[runs_values(s)[i] as int]),
        ),
{
    let payload = seq![w] + runs_form(s, w as nat);
    let indices = runs_values(s).take(n as int);
    assert(payload.skip(1) =~= runs_form(s, w as nat));
    law_hybrid(s, w as nat, n);
    assert forall|i: int| 0 <= i < indices.len() implies (#[trigger] indices[i]) < dict.len() by {
        assert(indices[i] == runs_values(s)[i]);
    }
    assert(looked_up(indices, dict)->Ok_0 =~= Seq::new(
        n,
        |i: int| dict[runs_values(s)[i] as int],
    ));
}

/// The values in the slots whose level is `max`.
pub open spec fn gathered(defs: Seq<u64>, slots: Seq<PqV>, max: u64) -> Seq<PqV>
    decreases defs.len(),
{
    if defs.len() == 0 {
        seq![]
    } else {
        let front = gathered(defs.drop_last(), slots.drop_last(), max);
        if defs.last() == max {
            front.push(slots.last())
        } else {
            front
        }
    }
}

/// Spreading the values over the slots whose level is `max` loses none of them, keeps their order,
/// and makes every other slot null.
pub proof fn law_scattered(defs: Seq<u64>, vals: Seq<PqV>, max: u64)
    requires
        occurrences(defs, max) == vals.len(),
    ensures
        scattered(defs, vals, max) is Ok,
        scattered(defs, vals, max)->Ok_0.len() == defs.len(),
        gathered(defs, scattered(defs, vals, max)->Ok_0, max) == vals,
        forall|i: int|
            0 <= i < defs.len() && defs[i] != max ==> (#[trigger] scattered(
                defs,
                vals,
                max,
            )->Ok_0[i]) == PqV::Null,
    decreases defs.len(),
{
    let out = scattered(defs, vals, max)->Ok_0;
    if defs.len() == 0 {
        assert(vals =~= seq![]);
    } else {
        let front = defs.drop_last();
        let fv = vals.take(occurrences(front, max) as int);
        law_scattered(front, fv, max);
        let fo = scattered(front, fv, max)->Ok_0;
        assert(out.drop_last() =~= fo) by {
            assert forall|i: int| 0 <= i < front.len() implies out[i] == fo[i] by {
                assert(defs.take(i) =~= front.take(i));
                assert(defs[i] == front[i]);
                if front[i] == max {
                    lemma_before(front, i, max);
                }
            }
        }
        assert(defs.take(defs.len() - 1) =~= front);
        if defs.last() == max {
            assert(out.last() == vals.last());
            assert(vals =~= fv.push(vals.last()));
        } else {
            assert(fv =~= vals);
        }
    }
}

proof fn lemma_before(defs: Seq<u64>, i: int, max: u64)
    requires
        0 <= i < defs.len(),
        defs[i] == max,
    ensures
        occurrences(defs.take(i), max) < occurrences(defs, max),
    decreases defs.len(),
{
    if i == defs.len() - 1 {
        assert(defs.take(i) =~= defs.drop_last());
    } else {
        lemma_before(defs.drop_last(), i, max);
        assert(defs.drop_last().take(i) =~= defs.take(i));
    }
}

} // verus!
