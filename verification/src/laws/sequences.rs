//! The sequences of a Zstandard block: how they are coded, and what they do.
use vstd::arithmetic::power2::{lemma2_to64, pow2};
use vstd::prelude::*;

use crate::laws::back_streams::{
    back_form, fields_fit, lemma_back_bits, lemma_back_field, width_of, BitField,
};
use crate::laws::blocks::{stepped, Step};
use crate::lz::lemma_copied;
use crate::zstd::ZstdErrorView;
use crate::zstd_fse::FseTableView;
use crate::zstd_seqexec::{executed, first_offsets, offset_of, RepeatOffsets};
use crate::zstd_sequences::{
    literal_length_code, match_length_code, sequence_at, sequences_from, sequences_header, state_at,
    states_at, stream_sequences, SeqSymbolMode, Sequence, States, Tables,
};

verus! {

/// The codes of the lengths divide all lengths among them: each code's lengths follow those of the
/// code before it, from 0 on for literals and from 3 on for matches, and none takes fewer bits than
/// the one before it.
pub proof fn law_length_codes(c: u8)
    ensures
        literal_length_code(0).0 == 0,
        c < 16 ==> literal_length_code(c).1 == 0,
        c < 35 ==> literal_length_code((c + 1) as u8).0 == literal_length_code(c).0 + pow2(
            literal_length_code(c).1 as nat,
        ) && literal_length_code(c).1 <= literal_length_code((c + 1) as u8).1,
        literal_length_code(35) == (65536u32, 16u32),
        match_length_code(0).0 == 3,
        c < 32 ==> match_length_code(c).1 == 0,
        c < 52 ==> match_length_code((c + 1) as u8).0 == match_length_code(c).0 + pow2(
            match_length_code(c).1 as nat,
        ) && match_length_code(c).1 <= match_length_code((c + 1) as u8).1,
        match_length_code(52) == (65539u32, 16u32),
{
    lemma2_to64();
}

/// Whether the states give the codes of the sequence.
#[verifier::opaque]
pub open spec fn states_give(t: Tables, st: States, q: Sequence) -> bool {
    let c = t.of.entries[st.of].symbol as nat;
    let (ml, mw) = match_length_code(t.ml.entries[st.ml].symbol);
    let (ll, lw) = literal_length_code(t.ll.entries[st.ll].symbol);
    &&& 0 <= st.ll < t.ll.entries.len()
    &&& 0 <= st.of < t.of.entries.len()
    &&& 0 <= st.ml < t.ml.entries.len()
    &&& pow2(c) <= q.offset < 2 * pow2(c)
    &&& ml <= q.match_length < ml + pow2(mw as nat)
    &&& ll <= q.literal_length < ll + pow2(lw as nat)
}

/// Whether a state may follow another.
pub open spec fn may_follow(t: FseTableView, a: int, b: int) -> bool {
    let e = t.entries[a];
    e.base_state <= b < e.base_state + pow2(e.nb_bits as nat)
}

/// Whether the three states may follow the three others.
#[verifier::opaque]
pub open spec fn states_follow(t: Tables, a: States, b: States) -> bool {
    may_follow(t.ll, a.ll, b.ll) && may_follow(t.of, a.of, b.of) && may_follow(t.ml, a.ml, b.ml)
}

/// What is added to the codes of a sequence: for the offset, the match and the literals.
#[verifier::opaque]
pub open spec fn extra_fields(t: Tables, st: States, q: Sequence) -> Seq<BitField> {
    let c = t.of.entries[st.of].symbol as nat;
    let (ml, mw) = match_length_code(t.ml.entries[st.ml].symbol);
    let (ll, lw) = literal_length_code(t.ll.entries[st.ll].symbol);
    seq![
        ((q.offset - pow2(c)) as nat, c),
        ((q.match_length - ml) as nat, mw as nat),
        ((q.literal_length - ll) as nat, lw as nat),
    ]
}

/// How the states change: for the literals, the match and the offset.
#[verifier::opaque]
pub open spec fn step_fields(t: Tables, a: States, b: States) -> Seq<BitField> {
    let l = t.ll.entries[a.ll];
    let m = t.ml.entries[a.ml];
    let o = t.of.entries[a.of];
    seq![
        ((b.ll - l.base_state) as nat, l.nb_bits as nat),
        ((b.ml - m.base_state) as nat, m.nb_bits as nat),
        ((b.of - o.base_state) as nat, o.nb_bits as nat),
    ]
}

/// The sequences from `i` on, where the states are those of each.
pub open spec fn sequence_fields(t: Tables, sts: Seq<States>, qs: Seq<Sequence>, i: int) -> Seq<
    BitField,
>
    decreases qs.len() - i,
{
    if i >= qs.len() {
        seq![]
    } else if i + 1 == qs.len() {
        extra_fields(t, sts[i], qs[i])
    } else {
        extra_fields(t, sts[i], qs[i]) + step_fields(t, sts[i], sts[i + 1]) + sequence_fields(
            t,
            sts,
            qs,
            i + 1,
        )
    }
}

/// The stream of the sequences: the first states, then each sequence and the way to the next states.
pub open spec fn sequences_stream(t: Tables, sts: Seq<States>, qs: Seq<Sequence>) -> Seq<BitField> {
    seq![
        (sts[0].ll as nat, t.ll.accuracy_log as nat),
        (sts[0].of as nat, t.of.accuracy_log as nat),
        (sts[0].ml as nat, t.ml.accuracy_log as nat),
    ] + sequence_fields(t, sts, qs, 0)
}

/// Whether the states are a way through the tables that gives the sequences.
pub open spec fn states_ok(t: Tables, sts: Seq<States>, qs: Seq<Sequence>) -> bool {
    &&& 0 < qs.len() == sts.len()
    &&& t.ll.entries.len() <= pow2(t.ll.accuracy_log as nat)
    &&& t.of.entries.len() <= pow2(t.of.accuracy_log as nat)
    &&& t.ml.entries.len() <= pow2(t.ml.accuracy_log as nat)
    &&& forall|i: int|
        #![trigger sts[i]]
        0 <= i < qs.len() ==> states_give(t, sts[i], qs[i])
    &&& forall|i: int|
        #![trigger sts[i]]
        0 <= i && i + 1 < qs.len() ==> states_follow(t, sts[i], sts[i + 1])
}

proof fn lemma_fit_concat(a: Seq<BitField>, b: Seq<BitField>)
    requires
        fields_fit(a),
        fields_fit(b),
    ensures
        fields_fit(a + b),
{
    let f = a + b;
    assert forall|i: int| #![trigger f[i]] 0 <= i < f.len() implies f[i].0 < pow2(f[i].1) by {
        if i < a.len() {
            assert(f[i] == a[i]);
        } else {
            assert(f[i] == b[i - a.len()]);
        }
    }
}

proof fn lemma_sequence_fit(t: Tables, sts: Seq<States>, qs: Seq<Sequence>, i: int)
    requires
        states_ok(t, sts, qs),
        0 <= i <= qs.len(),
    ensures
        fields_fit(sequence_fields(t, sts, qs, i)),
    decreases qs.len() - i,
{
    reveal(states_give);
    reveal(states_follow);
    reveal(extra_fields);
    reveal(step_fields);
    if i < qs.len() {
        assert(states_give(t, sts[i], qs[i]));
        let e = extra_fields(t, sts[i], qs[i]);
        assert(fields_fit(e));
        if i + 1 < qs.len() {
            assert(states_follow(t, sts[i], sts[i + 1]));
            let f = step_fields(t, sts[i], sts[i + 1]);
            assert(fields_fit(f));
            lemma_sequence_fit(t, sts, qs, i + 1);
            lemma_fit_concat(e, f);
            lemma_fit_concat(e + f, sequence_fields(t, sts, qs, i + 1));
        }
    }
}

/// Three numbers one after the other.
proof fn lemma_three(f: Seq<BitField>, j: int, a: Seq<BitField>, b: Seq<BitField>)
    requires
        0 <= j <= f.len(),
        f.skip(j) == a + b,
        a.len() == 3,
    ensures
        j + 3 <= f.len(),
        f[j] == a[0],
        f[j + 1] == a[1],
        f[j + 2] == a[2],
        f.skip(j + 3) == b,
{
    let s = f.skip(j);
    assert(s.len() == 3 + b.len());
    assert(f[j] == s[0] && f[j + 1] == s[1] && f[j + 2] == s[2]);
    assert(f.skip(j + 3) =~= b) by {
        assert forall|k: int| 0 <= k < b.len() implies f[j + 3 + k] == b[k] by {
            assert(f[j + 3 + k] == s[3 + k]);
        }
    }
}

proof fn lemma_sequence_read(t: Tables, f: Seq<BitField>, j: int, st: States, q: Sequence, b: Seq<BitField>)
    requires
        fields_fit(f),
        0 <= j <= f.len(),
        f.skip(j) == extra_fields(t, st, q) + b,
        states_give(t, st, q),
    ensures
        sequence_at(t, back_form(f), width_of(f.skip(j)) as int, st) == Ok::<
            (Sequence, int),
            ZstdErrorView,
        >((q, width_of(f.skip(j + 3)) as int)),
        f.skip(j + 3) == b,
        j + 3 <= f.len(),
{
    reveal(states_give);
    reveal(extra_fields);
    lemma_three(f, j, extra_fields(t, st, q), b);
    lemma_back_field(f, j);
    lemma_back_field(f, j + 1);
    lemma_back_field(f, j + 2);
}

proof fn lemma_states_read(t: Tables, f: Seq<BitField>, j: int, a: States, next: States, b: Seq<BitField>)
    requires
        fields_fit(f),
        0 <= j <= f.len(),
        f.skip(j) == step_fields(t, a, next) + b,
        states_follow(t, a, next),
    ensures
        states_at(t, back_form(f), width_of(f.skip(j)) as int, a) == Ok::<
            (States, int),
            ZstdErrorView,
        >((next, width_of(f.skip(j + 3)) as int)),
        f.skip(j + 3) == b,
        j + 3 <= f.len(),
{
    reveal(states_follow);
    reveal(step_fields);
    lemma_three(f, j, step_fields(t, a, next), b);
    lemma_back_field(f, j);
    lemma_back_field(f, j + 1);
    lemma_back_field(f, j + 2);
    let c = back_form(f);
    assert(state_at(t.ll, c, width_of(f.skip(j)) as int, a.ll) == Ok::<(int, int), ZstdErrorView>(
        (next.ll, width_of(f.skip(j + 1)) as int),
    ));
    assert(state_at(t.ml, c, width_of(f.skip(j + 1)) as int, a.ml) == Ok::<
        (int, int),
        ZstdErrorView,
    >((next.ml, width_of(f.skip(j + 2)) as int)));
    assert(state_at(t.of, c, width_of(f.skip(j + 2)) as int, a.of) == Ok::<
        (int, int),
        ZstdErrorView,
    >((next.of, width_of(f.skip(j + 3)) as int)));
}

proof fn lemma_from_last(
    t: Tables,
    c: Seq<u8>,
    left: int,
    st: States,
    have: Seq<Sequence>,
    q: Sequence,
)
    requires
        sequence_at(t, c, left, st) == Ok::<(Sequence, int), ZstdErrorView>((q, 0)),
    ensures
        sequences_from(t, c, left, st, 1, have) == Ok::<Seq<Sequence>, ZstdErrorView>(
            have.push(q),
        ),
{
    assert(sequences_from(t, c, 0, st, 0, have.push(q)) == Ok::<Seq<Sequence>, ZstdErrorView>(
        have.push(q),
    ));
}

proof fn lemma_from_step(
    t: Tables,
    c: Seq<u8>,
    left: int,
    st: States,
    n: nat,
    have: Seq<Sequence>,
    q: Sequence,
    p: int,
    next: States,
    r: int,
)
    requires
        n >= 2,
        sequence_at(t, c, left, st) == Ok::<(Sequence, int), ZstdErrorView>((q, p)),
        states_at(t, c, p, st) == Ok::<(States, int), ZstdErrorView>((next, r)),
    ensures
        sequences_from(t, c, left, st, n, have) == sequences_from(
            t,
            c,
            r,
            next,
            (n - 1) as nat,
            have.push(q),
        ),
{
}

#[verifier::rlimit(30)]
proof fn lemma_sequences(
    t: Tables,
    sts: Seq<States>,
    qs: Seq<Sequence>,
    f: Seq<BitField>,
    j: int,
    i: int,
    have: Seq<Sequence>,
)
    requires
        states_ok(t, sts, qs),
        fields_fit(f),
        0 <= j <= f.len(),
        0 <= i < qs.len(),
        f.skip(j) == sequence_fields(t, sts, qs, i),
    ensures
        sequences_from(
            t,
            back_form(f),
            width_of(f.skip(j)) as int,
            sts[i],
            (qs.len() - i) as nat,
            have,
        ) == Ok::<Seq<Sequence>, ZstdErrorView>(have + qs.skip(i)),
    decreases qs.len() - i,
{
    let n = (qs.len() - i) as nat;
    let e = extra_fields(t, sts[i], qs[i]);
    assert(states_give(t, sts[i], qs[i]));
    if i + 1 == qs.len() {
        assert(e =~= e + seq![]);
        lemma_sequence_read(t, f, j, sts[i], qs[i], seq![]);
        assert(width_of(f.skip(j + 3)) == 0);
        lemma_from_last(t, back_form(f), width_of(f.skip(j)) as int, sts[i], have, qs[i]);
        assert(have.push(qs[i]) =~= have + qs.skip(i));
    } else {
        let step = step_fields(t, sts[i], sts[i + 1]);
        let rest = sequence_fields(t, sts, qs, i + 1);
        assert(e + step + rest =~= e + (step + rest));
        lemma_sequence_read(t, f, j, sts[i], qs[i], step + rest);
        assert(states_follow(t, sts[i], sts[i + 1]));
        lemma_states_read(t, f, j + 3, sts[i], sts[i + 1], rest);
        lemma_from_step(
            t,
            back_form(f),
            width_of(f.skip(j)) as int,
            sts[i],
            n,
            have,
            qs[i],
            width_of(f.skip(j + 3)) as int,
            sts[i + 1],
            width_of(f.skip(j + 6)) as int,
        );
        lemma_sequences(t, sts, qs, f, j + 6, i + 1, have.push(qs[i]));
        assert(have.push(qs[i]) + qs.skip(i + 1) =~= have + qs.skip(i));
    }
}

/// Sequences are read back from the stream of any way through the tables that gives them.
pub proof fn law_sequences(t: Tables, sts: Seq<States>, qs: Seq<Sequence>)
    requires
        states_ok(t, sts, qs),
    ensures
        stream_sequences(t, back_form(sequences_stream(t, sts, qs)), qs.len()) == Ok::<
            Seq<Sequence>,
            ZstdErrorView,
        >(qs),
{
    reveal(states_give);
    let f = sequences_stream(t, sts, qs);
    let rest = sequence_fields(t, sts, qs, 0);
    assert(states_give(t, sts[0], qs[0]));
    let first = seq![
        (sts[0].ll as nat, t.ll.accuracy_log as nat),
        (sts[0].of as nat, t.of.accuracy_log as nat),
        (sts[0].ml as nat, t.ml.accuracy_log as nat),
    ];
    assert(fields_fit(first));
    lemma_sequence_fit(t, sts, qs, 0);
    lemma_fit_concat(first, rest);
    lemma_back_bits(f);
    assert(f.skip(0) =~= f);
    lemma_three(f, 0, first, rest);
    lemma_back_field(f, 0);
    lemma_back_field(f, 1);
    lemma_back_field(f, 2);
    lemma_sequences(t, sts, qs, f, 3, 0, seq![]);
    assert(Seq::<Sequence>::empty() + qs.skip(0) =~= qs);
    assert(sts[0] == (States { ll: sts[0].ll, of: sts[0].of, ml: sts[0].ml }));
}

/// The number of sequences: one byte, two or three.
pub open spec fn count_form(n: nat) -> Seq<u8> {
    if n < 128 {
        seq![n as u8]
    } else if n < 0x7F00 {
        seq![(128 + n / 256) as u8, (n % 256) as u8]
    } else {
        seq![255u8, ((n - 0x7F00) % 256) as u8, ((n - 0x7F00) / 256) as u8]
    }
}

/// The number of a mode.
pub open spec fn mode_number_of(m: SeqSymbolMode) -> nat {
    match m {
        SeqSymbolMode::Predefined => 0,
        SeqSymbolMode::Rle => 1,
        SeqSymbolMode::FseCompressed => 2,
        SeqSymbolMode::Repeat => 3,
    }
}

/// The header of a sequences section: the number of sequences, and, where there are any, the modes of
/// the tables for the literals, the offsets and the matches.
pub open spec fn sequences_header_form(
    n: nat,
    ll: SeqSymbolMode,
    of: SeqSymbolMode,
    ml: SeqSymbolMode,
) -> Seq<u8> {
    if n == 0 {
        count_form(0)
    } else {
        count_form(n) + seq![
            (64 * mode_number_of(ll) + 16 * mode_number_of(of) + 4 * mode_number_of(ml)) as u8,
        ]
    }
}

/// The header of a sequences section is read back, whatever follows it.
pub proof fn law_sequences_header(
    n: nat,
    ll: SeqSymbolMode,
    of: SeqSymbolMode,
    ml: SeqSymbolMode,
    after: Seq<u8>,
)
    requires
        n <= 0x17EFF,
    ensures
        ({
            let f = sequences_header_form(n, ll, of, ml);
            let r = sequences_header(f + after);
            &&& r is Ok
            &&& r->Ok_0.num_sequences == n
            &&& r->Ok_0.header_len == f.len()
            &&& n > 0 ==> r->Ok_0.ll_mode == ll && r->Ok_0.of_mode == of && r->Ok_0.ml_mode == ml
        }),
{
    let f = sequences_header_form(n, ll, of, ml);
    let b = f + after;
    let c = count_form(n);
    let k = c.len() as int;
    assert(b[0] == c[0]);
    if n >= 128 {
        assert(b[1] == c[1]);
    }
    if n >= 0x7F00 {
        assert(b[2] == c[2]);
    }
    if n > 0 {
        let m = 64 * mode_number_of(ll) + 16 * mode_number_of(of) + 4 * mode_number_of(ml);
        assert(b[k] == m as u8);
        assert(0 <= m < 256);
        assert(m % 4 == 0 && m / 64 == mode_number_of(ll) && m / 16 % 4 == mode_number_of(of) && m
            / 4 % 4 == mode_number_of(ml));
    }
}

/// The last three offsets, the latest first.
pub open spec fn history(r: RepeatOffsets) -> Seq<u32> {
    seq![r.first, r.second, r.third]
}

/// The offsets with the one at `i` moved to the front.
pub open spec fn to_front(h: Seq<u32>, i: int) -> Seq<u32> {
    seq![h[i]] + h.take(i) + h.skip(i + 1)
}

/// At the start of a frame the last offsets are 1, 4 and 8. A value above three is an offset and three
/// more, which becomes the latest. The values 1 to 3 are the last offsets, the latest first, and the
/// one that is taken becomes the latest. Where no literals come first, they are the second latest, the
/// third latest, and one less than the latest.
pub proof fn law_repeat_offsets(r: RepeatOffsets, value: u32, literals: u32)
    ensures
        history(first_offsets()) == seq![1u32, 4, 8],
        ({
            let h = history(r);
            let (offset, next) = offset_of(r, value, literals);
            let k = value - 1 + if literals == 0 {
                1int
            } else {
                0
            };
            &&& value > 3 ==> offset == value - 3 && history(next) == (seq![offset] + h).take(3)
            &&& 1 <= value <= 3 && k < 3 ==> offset == h[k] && history(next) == to_front(h, k)
            &&& 1 <= value <= 3 && k == 3 && h[0] > 0 ==> offset == h[0] - 1 && history(next) == (
            seq![offset] + h).take(3)
        }),
{
    let h = history(r);
    let (offset, next) = offset_of(r, value, literals);
    assert(history(first_offsets()) =~= seq![1u32, 4, 8]);
    let k = value - 1 + if literals == 0 {
        1int
    } else {
        0
    };
    if value > 3 {
        assert(history(next) =~= (seq![offset] + h).take(3));
    } else if value >= 1 {
        if k < 3 {
            assert(history(next) =~= to_front(h, k));
        } else if h[0] > 0 {
            assert(history(next) =~= (seq![offset] + h).take(3));
        }
    }
}

/// What sequences do: each puts some of the literals behind the output, and then a copy from as far
/// back as its offset says; what is left of the literals comes last.
pub open spec fn carried_out(
    qs: Seq<Sequence>,
    i: int,
    literals: Seq<u8>,
    at: int,
    r: RepeatOffsets,
    out: Seq<u8>,
) -> Seq<u8>
    decreases qs.len() - i,
{
    if i >= qs.len() {
        stepped(out, Step::Literal(literals.skip(at)))
    } else {
        let q = qs[i];
        let end = at + q.literal_length;
        let (offset, next) = offset_of(r, q.offset, q.literal_length);
        let before = stepped(out, Step::Literal(literals.subrange(at, end)));
        carried_out(
            qs,
            i + 1,
            literals,
            end,
            next,
            stepped(before, Step::Copy { offset: offset as nat, len: q.match_length as nat }),
        )
    }
}

/// The last offsets after the sequences from `i` on.
pub open spec fn offsets_after(qs: Seq<Sequence>, i: int, r: RepeatOffsets) -> RepeatOffsets
    decreases qs.len() - i,
{
    if i >= qs.len() {
        r
    } else {
        offsets_after(qs, i + 1, offset_of(r, qs[i].offset, qs[i].literal_length).1)
    }
}

/// Whether the sequences from `i` on can be carried out: there are literals enough, and each offset
/// reaches back to what is there.
pub open spec fn can_carry_out(
    qs: Seq<Sequence>,
    i: int,
    literals: Seq<u8>,
    at: int,
    r: RepeatOffsets,
    len: int,
) -> bool
    decreases qs.len() - i,
{
    if i >= qs.len() {
        0 <= at <= literals.len()
    } else {
        let q = qs[i];
        let (offset, next) = offset_of(r, q.offset, q.literal_length);
        &&& at + q.literal_length <= literals.len()
        &&& 1 <= offset <= len + q.literal_length
        &&& can_carry_out(
            qs,
            i + 1,
            literals,
            at + q.literal_length,
            next,
            len + q.literal_length + q.match_length,
        )
    }
}

/// Sequences are carried out one after the other, as far as the cap allows.
pub proof fn law_executed(
    qs: Seq<Sequence>,
    i: int,
    literals: Seq<u8>,
    at: int,
    r: RepeatOffsets,
    out: Seq<u8>,
    cap: usize,
)
    requires
        0 <= at,
        can_carry_out(qs, i, literals, at, r, out.len() as int),
        carried_out(qs, i, literals, at, r, out).len() <= cap,
    ensures
        executed(qs, i, literals, at, r, out, cap) == Ok::<
            (Seq<u8>, RepeatOffsets),
            ZstdErrorView,
        >((carried_out(qs, i, literals, at, r, out), offsets_after(qs, i, r))),
        out.len() <= carried_out(qs, i, literals, at, r, out).len(),
    decreases qs.len() - i,
{
    if i < qs.len() {
        let q = qs[i];
        let end = at + q.literal_length;
        let (offset, next) = offset_of(r, q.offset, q.literal_length);
        let before = out + literals.subrange(at, end);
        let after = crate::lz::copied(before, offset as int, q.match_length as nat);
        lemma_copied(before, offset as int, q.match_length as nat);
        lemma_grows(qs, i + 1, literals, end, next, after);
        law_executed(qs, i + 1, literals, end, next, after, cap);
    }
}

proof fn lemma_grows(
    qs: Seq<Sequence>,
    i: int,
    literals: Seq<u8>,
    at: int,
    r: RepeatOffsets,
    out: Seq<u8>,
)
    requires
        0 <= at,
        can_carry_out(qs, i, literals, at, r, out.len() as int),
    ensures
        out.len() <= carried_out(qs, i, literals, at, r, out).len(),
    decreases qs.len() - i,
{
    if i < qs.len() {
        let q = qs[i];
        let end = at + q.literal_length;
        let (offset, next) = offset_of(r, q.offset, q.literal_length);
        let before = out + literals.subrange(at, end);
        let after = crate::lz::copied(before, offset as int, q.match_length as nat);
        lemma_copied(before, offset as int, q.match_length as nat);
        lemma_grows(qs, i + 1, literals, end, next, after);
    }
}

} // verus!
