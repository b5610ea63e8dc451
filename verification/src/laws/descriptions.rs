//! Descriptions of the tables of finite state entropy: what was written is read back.
use vstd::arithmetic::power2::{lemma2_to64, lemma_pow2_unfold, pow2};
use vstd::prelude::*;

use crate::bytes::{bit_at, bits_at, lemma_bits_bound};
use crate::laws::back_streams::{fields_fit, width_of, BitField};
use crate::laws::forward_streams::{forward_form, lemma_forward_field};
use crate::laws::numbers::law_le;
use crate::zstd::ZstdErrorView;
use crate::zstd_fse::{
    description_at, lemma_top_bit, shares_at, top_bit, value_at, zeros, zeros_at,
};

verus! {

/// How much of the whole a share takes: one less than a whole share counts as one.
pub open spec fn used(share: i16) -> nat {
    if share < 0 {
        1
    } else {
        share as nat
    }
}

/// A value from 0 to `top`. It takes as many bits as `top` has; but as many of the smallest values as
/// there are codes to spare take one bit less.
pub open spec fn value_field(v: nat, top: nat) -> BitField {
    let width = top_bit(top) + 1;
    let spare = (pow2(width) - 1 - top) as nat;
    if v < spare {
        (v, (width - 1) as nat)
    } else if v < pow2((width - 1) as nat) {
        (v, width)
    } else {
        (v + spare, width)
    }
}

/// How many zeros there are from `i` on.
pub open spec fn zeros_from(shares: Seq<i16>, i: int) -> nat
    decreases shares.len() - i,
{
    if i < 0 || i >= shares.len() || shares[i] != 0 {
        0
    } else {
        1 + zeros_from(shares, i + 1)
    }
}

/// How many zeros follow, by threes.
pub open spec fn zeros_fields(n: nat) -> Seq<BitField>
    decreases n,
{
    if n < 3 {
        seq![(n, 2nat)]
    } else {
        seq![(3nat, 2nat)] + zeros_fields((n - 3) as nat)
    }
}

/// The shares from `i` on, where so much of the whole remains: each is one more than itself; behind a
/// zero stands how many zeros follow it.
pub open spec fn share_fields(shares: Seq<i16>, i: int, remaining: nat) -> Seq<BitField>
    decreases shares.len() - i,
{
    if i < 0 || i >= shares.len() {
        seq![]
    } else {
        let s = shares[i];
        let first = seq![value_field((s + 1) as nat, remaining + 1)];
        if s == 0 {
            let n = zeros_from(shares, i + 1);
            first + zeros_fields(n) + if i + 1 + n <= shares.len() {
                share_fields(shares, i + 1 + n, remaining)
            } else {
                seq![]
            }
        } else {
            first + share_fields(shares, i + 1, (remaining - used(s)) as nat)
        }
    }
}

/// Whether the shares from `i` on use up what remains, and no sooner than at the last.
pub open spec fn uses_up(shares: Seq<i16>, i: int, remaining: nat) -> bool
    decreases shares.len() - i,
{
    if i < 0 || i >= shares.len() {
        remaining == 0
    } else {
        &&& remaining > 0
        &&& -1 <= shares[i]
        &&& used(shares[i]) <= remaining
        &&& uses_up(shares, i + 1, (remaining - used(shares[i])) as nat)
    }
}

/// A description: the accuracy log less five in four bits, then the shares.
pub open spec fn description_fields(log: nat, shares: Seq<i16>) -> Seq<BitField> {
    seq![((log - 5) as nat, 4nat)] + share_fields(shares, 0, pow2(log))
}

/// The bytes of a description.
pub open spec fn description_form(log: nat, shares: Seq<i16>) -> Seq<u8> {
    forward_form(description_fields(log, shares))
}

proof fn lemma_zeros_bound(shares: Seq<i16>, i: int)
    requires
        0 <= i <= shares.len(),
    ensures
        i + zeros_from(shares, i) <= shares.len(),
        forall|j: int| i <= j < i + zeros_from(shares, i) ==> shares[j] == 0,
        i + zeros_from(shares, i) < shares.len() ==> shares[i + zeros_from(shares, i)] != 0,
    decreases shares.len() - i,
{
    if i < shares.len() && shares[i] == 0 {
        lemma_zeros_bound(shares, i + 1);
    }
}

proof fn lemma_uses_zeros(shares: Seq<i16>, i: int, remaining: nat)
    requires
        0 <= i <= shares.len(),
        uses_up(shares, i, remaining),
    ensures
        uses_up(shares, i + zeros_from(shares, i), remaining),
    decreases shares.len() - i,
{
    if i < shares.len() && shares[i] == 0 {
        lemma_uses_zeros(shares, i + 1, remaining);
    }
}

/// A value is read back.
proof fn lemma_value(c: Seq<u8>, p: int, v: nat, remaining: nat)
    requires
        0 <= p,
        remaining >= 1,
        v <= remaining + 1,
        ({
            let f = value_field(v, remaining + 1);
            p + f.1 <= 8 * c.len() && bits_at(c, p, f.1) == f.0
        }),
    ensures
        value_at(c, p, remaining) == Ok::<(int, int), ZstdErrorView>(
            (v as int, p + value_field(v, remaining + 1).1),
        ),
        value_field(v, remaining + 1).0 < pow2(value_field(v, remaining + 1).1),
        value_field(v, remaining + 1).1 > 0,
{
    let top = remaining + 1;
    lemma_value_fits(v, top);
    let width = top_bit(top) + 1;
    let half = pow2((width - 1) as nat);
    lemma_top_bit(top);
    lemma_pow2_unfold(width);
    let low = bits_at(c, p, (width - 1) as nat);
    lemma_bits_bound(c, p, (width - 1) as nat);
    let bit = bit_at(c, p + width - 1) as int;
    let h = half as int;
    assert(bits_at(c, p, width) == low + bit * h);
    assert(bit * h == 0 || bit * h == h) by (nonlinear_arith)
        requires
            bit == 0 || bit == 1,
    ;
}

proof fn lemma_value_fits(v: nat, top: nat)
    requires
        2 <= top,
        v <= top,
    ensures
        value_field(v, top).0 < pow2(value_field(v, top).1),
        value_field(v, top).1 > 0,
{
    let width = top_bit(top) + 1;
    lemma_top_bit(top);
    lemma_pow2_unfold(width);
    lemma2_to64();
    assert(top_bit(top) >= 1) by {
        reveal_with_fuel(top_bit, 2);
    }
}

proof fn lemma_zeros_fit(n: nat)
    ensures
        fields_fit(zeros_fields(n)),
        zeros_fields(n).len() > 0,
    decreases n,
{
    lemma2_to64();
    if n >= 3 {
        lemma_zeros_fit((n - 3) as nat);
        let t = zeros_fields((n - 3) as nat);
        let f = seq![(3nat, 2nat)] + t;
        assert forall|i: int| #![trigger f[i]] 0 <= i < f.len() implies f[i].0 < pow2(f[i].1) by {
            if i > 0 {
                assert(f[i] == t[i - 1]);
            }
        }
    }
}

proof fn lemma_concat_fit(a: Seq<BitField>, b: Seq<BitField>)
    requires
        fields_fit(a),
        fields_fit(b),
    ensures
        fields_fit(a + b),
{
    let f = a + b;
    assert forall|i: int| #![trigger f[i]] 0 <= i < f.len() implies f[i].0 < pow2(f[i].1) by {
        if i < a.len() {
            assert(f[i] == a[i]);
        } else {
            assert(f[i] == b[i - a.len()]);
        }
    }
}

proof fn lemma_shares_fit(shares: Seq<i16>, i: int, remaining: nat)
    requires
        0 <= i <= shares.len(),
        uses_up(shares, i, remaining),
    ensures
        fields_fit(share_fields(shares, i, remaining)),
    decreases shares.len() - i,
{
    if i < shares.len() {
        let s = shares[i];
        let first = seq![value_field((s + 1) as nat, remaining + 1)];
        lemma_value_fits((s + 1) as nat, remaining + 1);
        assert(fields_fit(first));
        if s == 0 {
            let n = zeros_from(shares, i + 1);
            lemma_zeros_bound(shares, i + 1);
            lemma_uses_zeros(shares, i + 1, remaining);
            lemma_zeros_fit(n);
            lemma_shares_fit(shares, i + 1 + n, remaining);
            lemma_concat_fit(first, zeros_fields(n));
            lemma_concat_fit(
                first + zeros_fields(n),
                share_fields(shares, i + 1 + n, remaining),
            );
        } else {
            let r = (remaining - used(s)) as nat;
            lemma_shares_fit(shares, i + 1, r);
            lemma_concat_fit(first, share_fields(shares, i + 1, r));
        }
    }
}

/// The next number of a stream, and what follows it.
proof fn lemma_next(
    f: Seq<BitField>,
    j: int,
    x: BitField,
    rest: Seq<BitField>,
    after: Seq<u8>,
)
    requires
        fields_fit(f),
        0 <= j <= f.len(),
        f.skip(j) == seq![x] + rest,
    ensures
        j < f.len(),
        f.skip(j + 1) == rest,
        bits_at(forward_form(f) + after, width_of(f.take(j)) as int, x.1) == x.0,
        width_of(f.take(j + 1)) == width_of(f.take(j)) + x.1,
        width_of(f.take(j + 1)) <= 8 * (forward_form(f) + after).len(),
{
    let s = f.skip(j);
    assert(s.len() == 1 + rest.len());
    assert(f[j] == s[0]);
    assert(f.skip(j + 1) =~= rest) by {
        assert forall|k: int| 0 <= k < rest.len() implies f[j + 1 + k] == rest[k] by {
            assert(f[j + 1 + k] == s[1 + k]);
        }
    }
    lemma_forward_field(f, j, after);
}

proof fn lemma_zeros(f: Seq<BitField>, j: int, n: nat, rest: Seq<BitField>, after: Seq<u8>)
    requires
        fields_fit(f),
        0 <= j <= f.len(),
        f.skip(j) == zeros_fields(n) + rest,
    ensures
        ({
            let m = j + zeros_fields(n).len();
            &&& m <= f.len()
            &&& f.skip(m) == rest
            &&& width_of(f.take(m)) > width_of(f.take(j))
            &&& width_of(f.take(m)) <= 8 * (forward_form(f) + after).len()
            &&& zeros_at(forward_form(f) + after, width_of(f.take(j)) as int) == Ok::<
                (nat, int),
                ZstdErrorView,
            >((n, width_of(f.take(m)) as int))
        }),
    decreases n,
{
    if n < 3 {
        lemma_next(f, j, (n, 2nat), rest, after);
    } else {
        let more = zeros_fields((n - 3) as nat);
        assert(seq![(3nat, 2nat)] + more + rest =~= seq![(3nat, 2nat)] + (more + rest));
        lemma_next(f, j, (3nat, 2nat), more + rest, after);
        lemma_zeros(f, j + 1, (n - 3) as nat, rest, after);
    }
}

#[verifier::rlimit(40)]
proof fn lemma_shares(
    f: Seq<BitField>,
    j: int,
    shares: Seq<i16>,
    i: int,
    remaining: nat,
    after: Seq<u8>,
)
    requires
        fields_fit(f),
        0 <= j <= f.len(),
        0 <= i <= shares.len(),
        uses_up(shares, i, remaining),
        f.skip(j) == share_fields(shares, i, remaining),
    ensures
        shares_at(
            forward_form(f) + after,
            width_of(f.take(j)) as int,
            remaining,
            shares.take(i),
        ) == Ok::<(Seq<i16>, int), ZstdErrorView>((shares, width_of(f) as int)),
    decreases shares.len() - i,
{
    let c = forward_form(f) + after;
    let p = width_of(f.take(j)) as int;
    if i == shares.len() {
        assert(shares.take(i) =~= shares);
        assert(j == f.len());
        assert(f.take(j) =~= f);
    } else {
        let s = shares[i];
        let v = (s + 1) as nat;
        let x = value_field(v, remaining + 1);
        if s == 0 {
            let n = zeros_from(shares, i + 1);
            lemma_zeros_bound(shares, i + 1);
            lemma_uses_zeros(shares, i + 1, remaining);
            let rest = share_fields(shares, i + 1 + n, remaining);
            assert(seq![x] + zeros_fields(n) + rest =~= seq![x] + (zeros_fields(n) + rest));
            lemma_next(f, j, x, zeros_fields(n) + rest, after);
            lemma_value(c, p, v, remaining);
            lemma_zeros(f, j + 1, n, rest, after);
            let m = j + 1 + zeros_fields(n).len();
            lemma_shares(f, m, shares, i + 1 + n, remaining, after);
            assert(shares.take(i).push(0i16) + zeros(n) =~= shares.take(i + 1 + n));
        } else {
            let r = (remaining - used(s)) as nat;
            lemma_next(f, j, x, share_fields(shares, i + 1, r), after);
            lemma_value(c, p, v, remaining);
            lemma_shares(f, j + 1, shares, i + 1, r, after);
            assert(shares.take(i).push(s) =~= shares.take(i + 1));
        }
    }
}

/// Whether the accuracy log and the shares can be described.
pub open spec fn describable(log: nat, shares: Seq<i16>, max_log: int, max_symbol: int) -> bool {
    &&& 5 <= log <= max_log <= 20
    &&& shares.len() <= max_symbol + 1
    &&& uses_up(shares, 0, pow2(log))
}

/// The accuracy log and the shares of a table are read back from its description, whatever follows
/// it.
pub proof fn law_description(
    log: nat,
    shares: Seq<i16>,
    max_log: int,
    max_symbol: int,
    after: Seq<u8>,
)
    requires
        describable(log, shares, max_log, max_symbol),
    ensures
        description_at(description_form(log, shares) + after, max_log, max_symbol) == Ok::<
            (int, Seq<i16>, int),
            ZstdErrorView,
        >((log as int, shares, description_form(log, shares).len() as int)),
{
    let rest = share_fields(shares, 0, pow2(log));
    let f = description_fields(log, shares);
    let x = ((log - 5) as nat, 4nat);
    lemma2_to64();
    assert(fields_fit(seq![x]));
    lemma_shares_fit(shares, 0, pow2(log));
    lemma_concat_fit(seq![x], rest);
    assert(f.skip(0) =~= f);
    lemma_next(f, 0, x, rest, after);
    assert(f.take(0) =~= seq![]);
    assert(shares.take(0) =~= seq![]);
    lemma_shares(f, 1, shares, 0, pow2(log), after);
    law_le(crate::laws::forward_streams::stacked(f), (width_of(f) + 7) / 8);
}

} // verus!
