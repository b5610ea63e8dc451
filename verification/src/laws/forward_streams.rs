//! Streams of bits that are read from their start: numbers, each of so many bits, the first lowest.
use vstd::arithmetic::div_mod::{
    lemma_fundamental_div_mod_converse, lemma_mod_multiples_vanish, lemma_small_mod,
};
use vstd::arithmetic::power2::{lemma2_to64, lemma_pow2_adds, lemma_pow2_pos, pow2};
use vstd::prelude::*;

use crate::bytes::bits_at;
use crate::laws::back_streams::{fields_fit, width_of, BitField};
use crate::laws::numbers::{law_bits, law_le, le_form};

verus! {

/// The numbers as one, the first lowest.
pub open spec fn stacked(f: Seq<BitField>) -> nat
    decreases f.len(),
{
    if f.len() == 0 {
        0
    } else {
        f[0].0 + pow2(f[0].1) * stacked(f.drop_first())
    }
}

/// The stream in which the numbers are read one after the other; what is left of the last byte is
/// zeros.
pub open spec fn forward_form(f: Seq<BitField>) -> Seq<u8> {
    le_form(stacked(f), (width_of(f) + 7) / 8)
}

/// The numbers from `i` on are the upper part of the whole.
proof fn lemma_above(f: Seq<BitField>, i: int)
    requires
        fields_fit(f),
        0 <= i <= f.len(),
    ensures
        stacked(f) / pow2(width_of(f.take(i))) == stacked(f.skip(i)),
        width_of(f) == width_of(f.take(i)) + width_of(f.skip(i)),
    decreases i,
{
    lemma2_to64();
    if i == 0 {
        assert(f.take(0) =~= seq![]);
        assert(f.skip(0) =~= f);
        assert(stacked(f) / 1 == stacked(f));
    } else {
        let t = f.drop_first();
        assert(fields_fit(t)) by {
            assert forall|j: int| #![trigger t[j]] 0 <= j < t.len() implies t[j].0 < pow2(
                t[j].1,
            ) by {
                assert(t[j] == f[j + 1]);
            }
        }
        lemma_above(t, i - 1);
        assert(t.skip(i - 1) =~= f.skip(i));
        assert(f.take(i).drop_first() =~= t.take(i - 1));
        assert(f.take(i)[0] == f[0]);
        let (v, w) = f[0];
        let u = width_of(t.take(i - 1));
        lemma_pow2_adds(w, u);
        lemma_pow2_pos(w);
        lemma_pow2_pos(u);
        let n = stacked(f) as int;
        let pw = pow2(w) as int;
        let pu = pow2(u) as int;
        let s = stacked(t) as int;
        assert(f[0].0 < pow2(f[0].1));
        assert(pw * s == s * pw) by (nonlinear_arith);
        lemma_fundamental_div_mod_converse(n, pw, s, v as int);
        vstd::arithmetic::div_mod::lemma_div_denominator(n, pw, pu);
    }
}

/// Bits within the first bytes do not depend on what follows them.
pub proof fn lemma_bits_within(a: Seq<u8>, after: Seq<u8>, start: int, n: nat)
    requires
        0 <= start,
        start + n <= 8 * a.len(),
    ensures
        bits_at(a + after, start, n) == bits_at(a, start, n),
    decreases n,
{
    if n > 0 {
        lemma_bits_within(a, after, start, (n - 1) as nat);
        let k = start + n - 1;
        assert((a + after)[k / 8] == a[k / 8]);
    }
}

/// The next number to be read is the next that was written, whatever follows them all.
pub proof fn lemma_forward_field(f: Seq<BitField>, i: int, after: Seq<u8>)
    requires
        fields_fit(f),
        0 <= i < f.len(),
    ensures
        bits_at(forward_form(f) + after, width_of(f.take(i)) as int, f[i].1) == f[i].0,
        width_of(f.take(i + 1)) == width_of(f.take(i)) + f[i].1,
        width_of(f.take(i + 1)) <= 8 * forward_form(f).len(),
{
    let k = (width_of(f) + 7) / 8;
    let start = width_of(f.take(i));
    let (v, w) = f[i];
    law_le(stacked(f), k);
    lemma_above(f, i);
    lemma_above(f, i + 1);
    lemma_take_width(f, i);
    lemma_bits_within(forward_form(f), after, start as int, w);
    law_bits(stacked(f), k, start, w);
    let s = f.skip(i);
    assert(s[0] == f[i]);
    lemma_pow2_pos(w);
    let rest = stacked(s.drop_first()) as int;
    let pw = pow2(w) as int;
    assert(stacked(s) as int == pw * rest + v);
    lemma_mod_multiples_vanish(rest, v as int, pw);
    lemma_small_mod(v, pow2(w));
}

proof fn lemma_take_width(f: Seq<BitField>, i: int)
    requires
        0 <= i < f.len(),
    ensures
        width_of(f.take(i + 1)) == width_of(f.take(i)) + f[i].1,
    decreases i,
{
    let a = f.take(i + 1);
    if i == 0 {
        assert(a.drop_first() =~= seq![]);
        assert(f.take(0) =~= seq![]);
        assert(width_of(a) == a[0].1 + width_of(a.drop_first()));
    } else {
        let t = f.drop_first();
        lemma_take_width(t, i - 1);
        assert(a.drop_first() =~= t.take(i));
        assert(f.take(i).drop_first() =~= t.take(i - 1));
        assert(t[i - 1] == f[i]);
    }
}

/// The width of numbers one after the other.
pub proof fn lemma_width_split(f: Seq<BitField>, i: int)
    requires
        0 <= i <= f.len(),
    ensures
        width_of(f) == width_of(f.take(i)) + width_of(f.skip(i)),
    decreases i,
{
    if i == 0 {
        assert(f.take(0) =~= seq![]);
        assert(f.skip(0) =~= f);
    } else {
        let t = f.drop_first();
        lemma_width_split(t, i - 1);
        assert(t.skip(i - 1) =~= f.skip(i));
        assert(f.take(i).drop_first() =~= t.take(i - 1));
        assert(f.take(i)[0] == f[0]);
    }
}

} // verus!
