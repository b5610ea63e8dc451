//! Streams of bits that are read from their end: numbers, each of so many bits, the first to be read
//! on top, and above them a bit that marks the end.
use vstd::arithmetic::div_mod::{
    lemma_fundamental_div_mod_converse, lemma_hoist_over_denominator, lemma_mod_multiples_vanish,
    lemma_small_mod,
};
use vstd::arithmetic::power2::{
    lemma2_to64, lemma_pow2_adds, lemma_pow2_pos, lemma_pow2_strictly_increases,
    lemma_pow2_unfold, pow2,
};
use vstd::prelude::*;

use crate::bytes::bits_at;
use crate::laws::numbers::{law_bits, law_le, le_form, lemma_le_form_index, lemma_pow256_pow2};
use crate::zstd::ZstdErrorView;
use crate::zstd_fse::{back_at, back_bits, lemma_top_bit, lemma_top_bit_bound, peek_at, top_bit};

verus! {

/// A number and how many bits it takes.
pub type BitField = (nat, nat);

/// How many bits the numbers take together.
pub open spec fn width_of(f: Seq<BitField>) -> nat
    decreases f.len(),
{
    if f.len() == 0 {
        0
    } else {
        f[0].1 + width_of(f.drop_first())
    }
}

/// The numbers as one, the first on top.
pub open spec fn number_of(f: Seq<BitField>) -> nat
    decreases f.len(),
{
    if f.len() == 0 {
        0
    } else {
        f[0].0 * pow2(width_of(f.drop_first())) + number_of(f.drop_first())
    }
}

/// Whether each number fits its bits.
pub open spec fn fields_fit(f: Seq<BitField>) -> bool {
    forall|i: int| #![trigger f[i]] 0 <= i < f.len() ==> f[i].0 < pow2(f[i].1)
}

/// The stream in which the numbers are read one after the other.
pub open spec fn back_form(f: Seq<BitField>) -> Seq<u8> {
    le_form(pow2(width_of(f)) + number_of(f), width_of(f) / 8 + 1)
}

/// Numbers one after the other fit if those in front and those behind do.
pub proof fn lemma_fit_tail(f: Seq<BitField>, i: int)
    requires
        fields_fit(f),
        0 <= i <= f.len(),
    ensures
        fields_fit(f.skip(i)),
{
    let t = f.skip(i);
    assert forall|j: int| #![trigger t[j]] 0 <= j < t.len() implies t[j].0 < pow2(t[j].1) by {
        assert(t[j] == f[i + j]);
    }
}

pub proof fn lemma_number_bound(f: Seq<BitField>)
    requires
        fields_fit(f),
    ensures
        number_of(f) < pow2(width_of(f)),
    decreases f.len(),
{
    lemma2_to64();
    if f.len() > 0 {
        let t = f.drop_first();
        assert(t =~= f.skip(1));
        lemma_fit_tail(f, 1);
        lemma_number_bound(t);
        let (v, w) = f[0];
        lemma_pow2_adds(w, width_of(t));
        let a = pow2(w) as int;
        let b = pow2(width_of(t)) as int;
        let n = number_of(t) as int;
        assert(v * b + n < a * b) by (nonlinear_arith)
            requires
                v + 1 <= a,
                n < b,
                0 <= b,
        ;
    }
}

/// The numbers from `i` on are the lower part of the whole.
proof fn lemma_suffix(f: Seq<BitField>, i: int)
    requires
        0 <= i <= f.len(),
    ensures
        exists|h: nat|
            number_of(f) == #[trigger] (h * pow2(width_of(f.skip(i)))) + number_of(f.skip(i)),
        width_of(f.skip(i)) <= width_of(f),
    decreases f.len(),
{
    if i == 0 {
        assert(f.skip(0) =~= f);
        assert(0 * pow2(width_of(f)) == 0) by (nonlinear_arith);
        assert(number_of(f) == 0nat * pow2(width_of(f.skip(i))) + number_of(f.skip(i)));
    } else {
        let t = f.drop_first();
        lemma_suffix(t, i - 1);
        assert(t.skip(i - 1) =~= f.skip(i));
        let s = f.skip(i);
        let h = choose|h: nat|
            number_of(t) == #[trigger] (h * pow2(width_of(s))) + number_of(s);
        let d = (width_of(t) - width_of(s)) as nat;
        lemma_pow2_adds(d, width_of(s));
        let v = f[0].0 as int;
        let p = pow2(d) as int;
        let q = pow2(width_of(s)) as int;
        let hh = h as int;
        assert(v * (p * q) + hh * q == (v * p + hh) * q) by (nonlinear_arith);
        assert(v * p >= 0) by (nonlinear_arith)
            requires
                v >= 0,
                p >= 0,
        ;
        let g = (v * p + hh) as nat;
        assert(number_of(f) == g * pow2(width_of(s)) + number_of(s));
    }
}

/// Bits below the numbers in front are bits of the numbers from `i` on.
proof fn lemma_window(f: Seq<BitField>, i: int, start: nat, w: nat)
    requires
        0 <= i <= f.len(),
        start + w <= width_of(f.skip(i)),
    ensures
        bits_at(back_form(f), start as int, w) == number_of(f.skip(i)) / pow2(start) % pow2(w),
{
    let all = width_of(f);
    let s = f.skip(i);
    let left = width_of(s);
    let n = number_of(s) as int;
    lemma_suffix(f, i);
    let h = choose|h: nat| number_of(f) == #[trigger] (h * pow2(width_of(s))) + number_of(s);
    let x = pow2(all) + number_of(f);
    let k = all / 8 + 1;
    law_bits(x, k, start, w);
    let d = (all - left) as nat;
    lemma_pow2_adds(d, left);
    lemma_pow2_adds(start, (left - start) as nat);
    lemma_pow2_adds(w, (left - start - w) as nat);
    lemma_pow2_pos(start);
    lemma_pow2_pos(w);
    let pd = pow2(d) as int;
    let pl = pow2(left) as int;
    let ps = pow2(start) as int;
    let pw = pow2(w) as int;
    let pm = pow2((left - start) as nat) as int;
    let pr = pow2((left - start - w) as nat) as int;
    let hh = h as int;
    let top = pd + hh;
    assert(x as int == top * pl + n) by (nonlinear_arith)
        requires
            x as int == pd * pl + hh * pl + n,
            top == pd + hh,
    ;
    assert(top * pl == (top * pm) * ps) by (nonlinear_arith)
        requires
            pl == ps * pm,
    ;
    lemma_hoist_over_denominator(n, top * pm, ps as nat);
    assert(x as int / ps == n / ps + top * pm);
    assert(top * pm == pw * (top * pr)) by (nonlinear_arith)
        requires
            pm == pw * pr,
    ;
    lemma_mod_multiples_vanish(top * pr, n / ps, pw);
}

/// The stream says how many bits it holds.
pub proof fn lemma_back_bits(f: Seq<BitField>)
    requires
        fields_fit(f),
    ensures
        back_bits(back_form(f)) == Ok::<int, ZstdErrorView>(width_of(f) as int),
{
    let all = width_of(f);
    let k = all / 8 + 1;
    let x = pow2(all) + number_of(f);
    let r = (all % 8) as nat;
    let b = (8 * (all / 8)) as nat;
    lemma2_to64();
    lemma_number_bound(f);
    law_le(x, k);
    lemma_le_form_index(x, k, k - 1);
    lemma_pow256_pow2((k - 1) as nat);
    lemma_pow2_adds(b, r);
    lemma_pow2_unfold((all + 1) as nat);
    lemma_pow2_unfold((r + 1) as nat);
    lemma_pow2_pos(b);
    let q = x as int / pow2(b) as int;
    let pb = pow2(b) as int;
    let pr = pow2(r) as int;
    vstd::arithmetic::div_mod::lemma_fundamental_div_mod(x as int, pb);
    let rem = x as int % pb;
    assert(pr <= q) by (nonlinear_arith)
        requires
            x as int == pb * q + rem,
            0 <= rem < pb,
            x as int >= pb * pr,
            pb > 0,
    ;
    assert(q < 2 * pr) by (nonlinear_arith)
        requires
            x as int == pb * q + rem,
            0 <= rem,
            (x as int) < 2 * (pb * pr),
            pb > 0,
    ;
    if r < 7 {
        lemma_pow2_strictly_increases(r, 7);
    }
    assert(q < 256);
    assert(back_form(f).last() == q);
    lemma_top(q as nat, r);
}

/// The highest bit of a number between two powers of two.
pub proof fn lemma_top(n: nat, r: nat)
    requires
        pow2(r) <= n < pow2(r + 1),
    ensures
        top_bit(n) == r,
        n > 0,
{
    lemma_pow2_pos(r);
    lemma_top_bit(n);
    lemma_top_bit_bound(n, r);
    if top_bit(n) < r {
        if top_bit(n) + 1 < r {
            lemma_pow2_strictly_increases(top_bit(n) + 1, r);
        }
    }
}

/// The next number to be read is the next that was written.
pub proof fn lemma_back_field(f: Seq<BitField>, i: int)
    requires
        fields_fit(f),
        0 <= i < f.len(),
    ensures
        back_at(back_form(f), width_of(f.skip(i)) as int, f[i].1) == Ok::<
            (int, int),
            ZstdErrorView,
        >((f[i].0 as int, width_of(f.skip(i + 1)) as int)),
        width_of(f.skip(i)) == f[i].1 + width_of(f.skip(i + 1)),
{
    let s = f.skip(i);
    let t = f.skip(i + 1);
    assert(s.drop_first() =~= t);
    assert(s[0] == f[i]);
    let (v, w) = f[i];
    let start = width_of(t);
    lemma_window(f, i, start, w);
    lemma_fit_tail(f, i + 1);
    lemma_number_bound(t);
    lemma_fundamental_div_mod_converse(
        number_of(s) as int,
        pow2(start) as int,
        v as int,
        number_of(t) as int,
    );
    lemma_small_mod(v, pow2(w));
}

/// The bits ahead start with the next number: of `m` bits, the upper ones are those of the number,
/// whatever follows it.
pub proof fn lemma_peek(f: Seq<BitField>, i: int, m: nat)
    requires
        fields_fit(f),
        0 <= i < f.len(),
        f[i].1 <= m,
    ensures
        ({
            let v = peek_at(back_form(f), width_of(f.skip(i)) as int, m);
            let unit = pow2((m - f[i].1) as nat);
            f[i].0 * unit <= v < (f[i].0 + 1) * unit
        }),
{
    let s = f.skip(i);
    let t = f.skip(i + 1);
    assert(s.drop_first() =~= t);
    assert(s[0] == f[i]);
    let (c, w) = f[i];
    let left = width_of(s);
    let n = number_of(s) as int;
    lemma_fit_tail(f, i);
    lemma_fit_tail(f, i + 1);
    lemma_number_bound(s);
    lemma_number_bound(t);
    let unit = pow2((m - w) as nat) as int;
    let below = pow2(width_of(t)) as int;
    let cc = c as int;
    assert(left == w + width_of(t));
    assert(cc * below <= n);
    assert(n < (cc + 1) * below) by (nonlinear_arith)
        requires
            n == cc * below + number_of(t),
            number_of(t) < below,
    ;
    if m <= left {
        let d = (left - m) as nat;
        lemma_window(f, i, d, m);
        lemma_pow2_pos(d);
        lemma_pow2_adds(d, m);
        lemma_pow2_adds((m - w) as nat, d);
        let pd = pow2(d) as int;
        let q = n / pd;
        vstd::arithmetic::div_mod::lemma_fundamental_div_mod(n, pd);
        let r = n % pd;
        let pm = pow2(m) as int;
        assert(0 <= q < pm) by (nonlinear_arith)
            requires
                n == pd * q + r,
                0 <= r < pd,
                0 <= n < pd * pm,
                pd > 0,
        ;
        lemma_small_mod(q as nat, pow2(m));
        assert(below == unit * pd);
        assert(cc * unit <= q) by (nonlinear_arith)
            requires
                n == pd * q + r,
                0 <= r < pd,
                cc * (unit * pd) <= n,
                pd > 0,
        ;
        assert(q < (cc + 1) * unit) by (nonlinear_arith)
            requires
                n == pd * q + r,
                0 <= r,
                n < (cc + 1) * (unit * pd),
                pd > 0,
        ;
    } else {
        let d = (m - left) as nat;
        lemma2_to64();
        lemma_window(f, i, 0, left);
        assert(n / 1 == n);
        lemma_small_mod(n as nat, pow2(left));
        lemma_pow2_adds(width_of(t), d);
        lemma_pow2_pos(d);
        let pd = pow2(d) as int;
        assert(unit == below * pd);
        assert(cc * unit <= n * pd) by (nonlinear_arith)
            requires
                unit == below * pd,
                cc * below <= n,
                pd > 0,
        ;
        assert(n * pd < (cc + 1) * unit) by (nonlinear_arith)
            requires
                unit == below * pd,
                n < (cc + 1) * below,
                pd > 0,
        ;
    }
}

} // verus!
