//! Levels and dictionary indices: runs and packed bits.
use vstd::arithmetic::div_mod::{
    lemma_div_denominator, lemma_div_multiples_vanish_fancy, lemma_fundamental_div_mod_converse,
    lemma_small_mod,
};
use vstd::arithmetic::power2::{
    lemma2_to64, lemma_pow2_adds, lemma_pow2_pos, lemma_pow2_strictly_increases, pow2,
};
use vstd::prelude::*;

use crate::bytes::pow256;
use crate::error::PqErrorView;
use crate::laws::numbers::{
    law_bits, law_le, le_form, lemma_pow256_pow2, lemma_varint_at, varint_form,
};
use crate::rle::{
    hybrid, hybrid_at, least, packed_values, prefixed_levels, repeated, run_at, value_bytes,
};
use crate::varint::{pow128, VarintView};

verus! {

/// Numbers of `w` bits each as one number, the first lowest.
pub open spec fn packed_number(s: Seq<u64>, w: nat) -> nat
    decreases s.len(),
{
    if s.len() == 0 {
        0
    } else {
        s[0] as nat + pow2(w) * packed_number(s.drop_first(), w)
    }
}

pub proof fn lemma_packed_number(s: Seq<u64>, w: nat, i: nat)
    requires
        i < s.len(),
        forall|j: int| 0 <= j < s.len() ==> (#[trigger] s[j]) < pow2(w),
    ensures
        packed_number(s, w) / pow2(w * i) % pow2(w) == s[i as int],
    decreases i,
{
    let rest = packed_number(s.drop_first(), w) as int;
    let p = pow2(w) as int;
    lemma_pow2_pos(w);
    let n = packed_number(s, w) as int;
    assert(n == p * rest + s[0]);
    if i == 0 {
        lemma2_to64();
        assert(w * 0 == 0) by (nonlinear_arith);
        assert(n / 1 == n);
        assert(rest * p == p * rest) by (nonlinear_arith);
        lemma_fundamental_div_mod_converse(n, p, rest, s[0] as int);
    } else {
        let k = (i - 1) as nat;
        assert forall|j: int| 0 <= j < s.drop_first().len() implies (#[trigger] s.drop_first()[j])
            < pow2(w) by {
            assert(s.drop_first()[j] == s[j + 1]);
        }
        lemma_packed_number(s.drop_first(), w, k);
        lemma_div_multiples_vanish_fancy(rest, s[0] as int, p);
        assert(w * i == w + w * k) by (nonlinear_arith)
            requires
                i == k + 1,
        ;
        lemma_pow2_adds(w, w * k);
        lemma_pow2_pos(w * k);
        lemma_div_denominator(n, p, pow2(w * k) as int);
    }
}

/// A run of a hybrid stream.
pub enum Run {
    /// A value so many times.
    Repeat { value: u64, count: nat },
    /// Values one after the other, in groups of eight.
    Packed(Seq<u64>),
}

/// The values of a run.
pub open spec fn run_values(r: Run) -> Seq<u64> {
    match r {
        Run::Repeat { value, count } => repeated(value, count),
        Run::Packed(s) => s,
    }
}

/// A run in bytes, with values of `w` bits.
pub open spec fn run_form(r: Run, w: nat) -> Seq<u8> {
    match r {
        Run::Repeat { value, count } => varint_form(2 * count) + le_form(
            value as nat,
            value_bytes(w),
        ),
        Run::Packed(s) => varint_form(2 * (s.len() / 8) + 1) + le_form(
            packed_number(s, w),
            s.len() / 8 * w,
        ),
    }
}

/// Whether a run can be written: its values have `w` bits, and its length can be said.
pub open spec fn run_ok(r: Run, w: nat) -> bool {
    match r {
        Run::Repeat { value, count } => value < pow2(w) && 2 * count <= u64::MAX,
        Run::Packed(s) => s.len() % 8 == 0 && s.len() <= u64::MAX && s.len() <= usize::MAX && s.len()
            / 8 * w <= u64::MAX && forall|i: int|
            0 <= i < s.len() ==> (#[trigger] s[i]) < pow2(w),
    }
}

/// The values of runs.
pub open spec fn runs_values(s: Seq<Run>) -> Seq<u64>
    decreases s.len(),
{
    if s.len() == 0 {
        seq![]
    } else {
        run_values(s[0]) + runs_values(s.drop_first())
    }
}

/// Runs in bytes.
pub open spec fn runs_form(s: Seq<Run>, w: nat) -> Seq<u8>
    decreases s.len(),
{
    if s.len() == 0 {
        seq![]
    } else {
        run_form(s[0], w) + runs_form(s.drop_first(), w)
    }
}

proof fn lemma_header(d: Seq<u8>, p: int, h: nat, rest: Seq<u8>)
    requires
        0 <= p <= d.len(),
        d.skip(p) == varint_form(h) + rest,
        h <= u64::MAX,
    ensures
        crate::varint::varint_at(d, p, 10) == (VarintView::Value {
            value: h as u64,
            end: p + varint_form(h).len(),
        }),
{
    crate::varint::lemma_pow128_values();
    assert(pow128(10) == 128 * pow128(9));
    lemma_varint_at(h as u64, d.take(p), rest, 10);
    assert(d.take(p) + varint_form(h) + rest =~= d) by {
        assert(d =~= d.take(p) + d.skip(p));
        assert(d.take(p) + (varint_form(h) + rest) =~= d.take(p) + varint_form(h) + rest);
    }
}

/// A run is read as what was written: as many of its values as are wanted.
proof fn lemma_run(d: Seq<u8>, p: int, r: Run, w: nat, rest: Seq<u8>, need: nat)
    requires
        0 <= p <= d.len() <= usize::MAX,
        d.skip(p) == run_form(r, w) + rest,
        run_ok(r, w),
        w <= 64,
    ensures
        run_at(d, p, w, need) == Ok::<(Seq<u64>, int), PqErrorView>(
            (
                run_values(r).take(least(need, run_values(r).len()) as int),
                p + run_form(r, w).len(),
            ),
        ),
        run_form(r, w).len() > 0,
        p + run_form(r, w).len() + rest.len() == d.len(),
{
    let f = run_form(r, w);
    assert(d.skip(p).len() == f.len() + rest.len());
    match r {
        Run::Repeat { value, count } => {
            let h = varint_form(2 * count);
            let v = le_form(value as nat, value_bytes(w));
            assert(f + rest =~= h + (v + rest));
            lemma_header(d, p, 2 * count, v + rest);
            law_le(value as nat, value_bytes(w));
            let end = p + h.len();
            let n = value_bytes(w);
            assert(d.subrange(end, end + n) =~= v) by {
                assert forall|i: int| 0 <= i < n implies d.subrange(end, end + n)[i] == v[i] by {
                    assert(d[end + i] == d.skip(p)[h.len() + i]);
                }
            }
            lemma_pow256_pow2(n);
            if w < 8 * n {
                lemma_pow2_strictly_increases(w, 8 * n);
            }
            lemma_small_mod(value as nat, pow256(n));
            let m = least(need, count);
            assert(repeated(value, count).take(m as int) =~= repeated(value, m));
        },
        Run::Packed(s) => {
            let groups = s.len() / 8;
            let h = varint_form(2 * groups + 1);
            let k = groups * w;
            let v = le_form(packed_number(s, w), k);
            assert(f + rest =~= h + (v + rest));
            lemma_header(d, p, 2 * groups + 1, v + rest);
            law_le(packed_number(s, w), k);
            let end = p + h.len();
            assert(d.subrange(end, end + k) =~= v) by {
                assert forall|i: int| 0 <= i < k implies d.subrange(end, end + k)[i] == v[i] by {
                    assert(d[end + i] == d.skip(p)[h.len() + i]);
                }
            }
            let m = least(need, groups * 8);
            assert(groups * 8 == s.len());
            assert(packed_values(v, w, m) =~= s.take(m as int)) by {
                assert forall|i: int| 0 <= i < m implies #[trigger] packed_values(v, w, m)[i]
                    == s[i] by {
                    assert(i * w == w * i) by (nonlinear_arith);
                    assert(w * i + w <= 8 * k) by (nonlinear_arith)
                        requires
                            i + 1 <= 8 * groups,
                            k == groups * w,
                            w >= 0,
                    ;
                    law_bits(packed_number(s, w), k, (w * i) as nat, w);
                    lemma_packed_number(s, w, i as nat);
                }
            }
        },
    }
    crate::laws::numbers::lemma_varint_form_len(
        match r {
            Run::Repeat { value, count } => 2 * count,
            Run::Packed(s) => 2 * (s.len() / 8) + 1,
        },
    );
}

proof fn lemma_runs(d: Seq<u8>, p: int, s: Seq<Run>, w: nat, need: nat)
    requires
        0 <= p <= d.len() <= usize::MAX,
        d.skip(p) == runs_form(s, w),
        forall|i: int| 0 <= i < s.len() ==> run_ok(#[trigger] s[i], w),
        w <= 64,
        need <= runs_values(s).len(),
    ensures
        hybrid_at(d, p, w, need) == Ok::<Seq<u64>, PqErrorView>(runs_values(s).take(need as int)),
    decreases s.len(),
{
    if need == 0 {
        assert(runs_values(s).take(0) =~= Seq::<u64>::empty());
    } else {
        let r = s[0];
        let rest = s.drop_first();
        let f = run_form(r, w);
        lemma_run(d, p, r, w, runs_form(rest, w), need);
        let e = p + f.len();
        let v = run_values(r);
        let m = least(need, v.len());
        assert(d.skip(e) =~= runs_form(rest, w)) by {
            assert forall|i: int| 0 <= i < d.len() - e implies d.skip(e)[i] == runs_form(
                rest,
                w,
            )[i] by {
                assert(d[e + i] == d.skip(p)[f.len() + i]);
            }
        }
        assert forall|i: int| 0 <= i < rest.len() implies run_ok(#[trigger] rest[i], w) by {
            assert(rest[i] == s[i + 1]);
        }
        lemma_runs(d, e, rest, w, (need - m) as nat);
        assert(v.take(m as int) + runs_values(rest).take(need - m) =~= runs_values(s).take(
            need as int,
        ));
    }
}

/// A hybrid stream is read as the runs that were written: as many of their values as are wanted.
pub proof fn law_hybrid(s: Seq<Run>, w: nat, n: nat)
    requires
        w <= 64,
        forall|i: int| 0 <= i < s.len() ==> run_ok(#[trigger] s[i], w),
        n <= runs_values(s).len(),
        runs_form(s, w).len() <= usize::MAX,
    ensures
        hybrid(runs_form(s, w), w, n) == Ok::<Seq<u64>, PqErrorView>(
            runs_values(s).take(n as int),
        ),
{
    let d = runs_form(s, w);
    assert(d.skip(0) =~= d);
    lemma_runs(d, 0, s, w, n);
}

/// Levels with their length before them are read as the runs that were written, whatever follows
/// them.
pub proof fn law_prefixed_levels(s: Seq<Run>, w: nat, n: nat, after: Seq<u8>)
    requires
        w <= 64,
        forall|i: int| 0 <= i < s.len() ==> run_ok(#[trigger] s[i], w),
        n <= runs_values(s).len(),
        runs_form(s, w).len() <= u32::MAX,
        4 + runs_form(s, w).len() <= usize::MAX,
    ensures
        prefixed_levels(
            le_form(runs_form(s, w).len(), 4) + runs_form(s, w) + after,
            w,
            n,
        ) == Ok::<(Seq<u64>, int), PqErrorView>(
            (runs_values(s).take(n as int), (4 + runs_form(s, w).len()) as int),
        ),
{
    let f = runs_form(s, w);
    let h = le_form(f.len(), 4);
    let d = h + f + after;
    law_le(f.len(), 4);
    crate::bytes::lemma_pow256_values();
    assert(d.subrange(0, 4) =~= h);
    assert(d.subrange(4, (4 + f.len()) as int) =~= f);
    law_hybrid(s, w, n);
}

} // verus!
