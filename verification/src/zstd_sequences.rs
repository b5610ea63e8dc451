//! The sequences section of a Zstandard block.
use vstd::arithmetic::power2::{lemma2_to64, pow2};
use vstd::prelude::*;

use crate::zstd::{ZstdError, ZstdErrorView};
use crate::zstd_fse::{
    back_at, back_bits, build_table, description_at, read_description, shares_ok, table_of,
    BackReader, FseEntry, FseTable, FseTableView,
};

verus! {

/// Where the table for one kind of symbol comes from.
#[derive(Clone, Copy, Debug, PartialEq, Eq, Structural)]
pub enum SeqSymbolMode {
    /// The table that the format fixes.
    Predefined,
    /// One symbol for all.
    Rle,
    /// A table that is described here.
    FseCompressed,
    /// The table of an earlier block.
    Repeat,
}

/// The kinds of symbols.
#[derive(Clone, Copy, Debug, PartialEq, Eq, Structural)]
pub enum SeqSymbolClass {
    LiteralLength,
    Offset,
    MatchLength,
}

/// The header of a sequences section.
#[derive(Clone, Copy, Debug)]
pub struct SequencesHeader {
    pub num_sequences: u32,
    pub ll_mode: SeqSymbolMode,
    pub of_mode: SeqSymbolMode,
    pub ml_mode: SeqSymbolMode,
    /// How many bytes the header takes.
    pub header_len: usize,
}

/// A step of the block: copy some literals, then some bytes of the output.
#[derive(Clone, Copy, Debug, PartialEq, Eq, Structural)]
pub struct Sequence {
    pub literal_length: u32,
    /// How far back the copy starts, plus three; one to three stand for one of the last offsets.
    pub offset: u32,
    pub match_length: u32,
}

/// The mode with a number.
pub open spec fn mode_of(n: u8) -> SeqSymbolMode {
    match n {
        0 => SeqSymbolMode::Predefined,
        1 => SeqSymbolMode::Rle,
        2 => SeqSymbolMode::FseCompressed,
        _ => SeqSymbolMode::Repeat,
    }
}

/// The number of sequences at the start of a section, and how many bytes it takes.
pub open spec fn sequence_count(b: Seq<u8>) -> Result<(int, int), ZstdErrorView> {
    if b.len() == 0 {
        Err(ZstdErrorView::UnexpectedEof)
    } else if b[0] < 128 {
        Ok((b[0] as int, 1))
    } else if b[0] < 255 {
        if b.len() < 2 {
            Err(ZstdErrorView::UnexpectedEof)
        } else {
            Ok(((b[0] - 128) * 256 + b[1], 2))
        }
    } else if b.len() < 3 {
        Err(ZstdErrorView::UnexpectedEof)
    } else {
        Ok((b[1] + b[2] * 256 + 0x7F00, 3))
    }
}

/// The header at the start of a sequences section: no modes follow where there are no sequences.
pub open spec fn sequences_header(b: Seq<u8>) -> Result<SequencesHeader, ZstdErrorView> {
    match sequence_count(b) {
        Err(e) => Err(e),
        Ok((n, at)) => if n == 0 {
            Ok(
                SequencesHeader {
                    num_sequences: 0,
                    ll_mode: SeqSymbolMode::Predefined,
                    of_mode: SeqSymbolMode::Predefined,
                    ml_mode: SeqSymbolMode::Predefined,
                    header_len: at as usize,
                },
            )
        } else if b.len() <= at || b[at] % 4 != 0 {
            Err(ZstdErrorView::UnexpectedEof)
        } else {
            Ok(
                SequencesHeader {
                    num_sequences: n as u32,
                    ll_mode: mode_of((b[at] / 64) as u8),
                    of_mode: mode_of((b[at] / 16 % 4) as u8),
                    ml_mode: mode_of((b[at] / 4 % 4) as u8),
                    header_len: (at + 1) as usize,
                },
            )
        },
    }
}

/// The highest symbol of a kind.
pub open spec fn max_symbol(class: SeqSymbolClass) -> int {
    match class {
        SeqSymbolClass::LiteralLength => 35,
        SeqSymbolClass::Offset => 31,
        SeqSymbolClass::MatchLength => 52,
    }
}

/// The highest accuracy log of a described table.
pub open spec fn max_log(class: SeqSymbolClass) -> int {
    match class {
        SeqSymbolClass::Offset => 8,
        _ => 9,
    }
}

/// The shares of the literal lengths in the table that the format fixes.
pub const LITERAL_LENGTH_SHARES: [i16; 36] = [
    4, 3, 2, 2, 2, 2, 2, 2, 2, 2, 2, 2, 2, 1, 1, 1, 2, 2, 2, 2, 2, 2, 2, 2, 2, 3, 2, 1, 1, 1, 1, 1,
    -1, -1, -1, -1,
];

/// The shares of the offsets in the table that the format fixes.
pub const OFFSET_SHARES: [i16; 29] = [
    1, 1, 1, 1, 1, 1, 2, 2, 2, 1, 1, 1, 1, 1, 1, 1, 1, 1, 1, 1, 1, 1, 1, 1, -1, -1, -1, -1, -1,
];

/// The shares of the match lengths in the table that the format fixes.
pub const MATCH_LENGTH_SHARES: [i16; 53] = [
    1, 4, 3, 2, 2, 2, 2, 2, 2, 1, 1, 1, 1, 1, 1, 1, 1, 1, 1, 1, 1, 1, 1, 1, 1, 1, 1, 1, 1, 1, 1, 1,
    1, 1, 1, 1, 1, 1, 1, 1, 1, 1, 1, 1, 1, 1, -1, -1, -1, -1, -1, -1, -1,
];

/// The accuracy log and the shares of the table that the format fixes.
pub open spec fn predefined(class: SeqSymbolClass) -> (int, Seq<i16>) {
    match class {
        SeqSymbolClass::LiteralLength => (6, LITERAL_LENGTH_SHARES@),
        SeqSymbolClass::Offset => (5, OFFSET_SHARES@),
        SeqSymbolClass::MatchLength => (6, MATCH_LENGTH_SHARES@),
    }
}

/// The table for a kind of symbol, and how many bytes it takes.
pub open spec fn table_for_mode(
    class: SeqSymbolClass,
    mode: SeqSymbolMode,
    b: Seq<u8>,
    prev: Option<FseTableView>,
) -> Result<(FseTableView, int), ZstdErrorView> {
    match mode {
        SeqSymbolMode::Predefined => {
            let (log, shares) = predefined(class);
            match table_of(log, shares) {
                Err(e) => Err(e),
                Ok(t) => Ok((t, 0)),
            }
        },
        SeqSymbolMode::Rle => if b.len() == 0 || b[0] > max_symbol(class) {
            Err(ZstdErrorView::UnexpectedEof)
        } else {
            Ok(
                (
                    FseTableView {
                        accuracy_log: 0,
                        entries: seq![FseEntry { symbol: b[0], nb_bits: 0, base_state: 0 }],
                    },
                    1,
                ),
            )
        },
        SeqSymbolMode::FseCompressed => match description_at(b, max_log(class), max_symbol(class)) {
            Err(e) => Err(e),
            Ok((log, shares, n)) => match table_of(log, shares) {
                Err(e) => Err(e),
                Ok(t) => Ok((t, n)),
            },
        },
        SeqSymbolMode::Repeat => match prev {
            None => Err(ZstdErrorView::UnexpectedEof),
            Some(t) => Ok((t, 0)),
        },
    }
}

/// The least length that a literal length symbol stands for, and the width of what is added.
pub open spec fn literal_length_code(code: u8) -> (u32, u32) {
    match code {
        16 => (16, 1),
        17 => (18, 1),
        18 => (20, 1),
        19 => (22, 1),
        20 => (24, 2),
        21 => (28, 2),
        22 => (32, 3),
        23 => (40, 3),
        24 => (48, 4),
        25 => (64, 6),
        26 => (128, 7),
        27 => (256, 8),
        28 => (512, 9),
        29 => (1024, 10),
        30 => (2048, 11),
        31 => (4096, 12),
        32 => (8192, 13),
        33 => (16384, 14),
        34 => (32768, 15),
        35 => (65536, 16),
        _ => (code as u32, 0),
    }
}

/// The least length that a match length symbol stands for, and the width of what is added.
pub open spec fn match_length_code(code: u8) -> (u32, u32) {
    match code {
        32 => (35, 1),
        33 => (37, 1),
        34 => (39, 1),
        35 => (41, 1),
        36 => (43, 2),
        37 => (47, 2),
        38 => (51, 3),
        39 => (59, 3),
        40 => (67, 4),
        41 => (83, 4),
        42 => (99, 5),
        43 => (131, 7),
        44 => (259, 8),
        45 => (515, 9),
        46 => (1027, 10),
        47 => (2051, 11),
        48 => (4099, 12),
        49 => (8195, 13),
        50 => (16387, 14),
        51 => (32771, 15),
        52 => (65539, 16),
        _ => ((code + 3) as u32, 0),
    }
}

/// The three tables.
pub struct Tables {
    pub ll: FseTableView,
    pub of: FseTableView,
    pub ml: FseTableView,
}

/// The three states.
pub struct States {
    pub ll: int,
    pub of: int,
    pub ml: int,
}

/// The next sequence, and how many bits are left.
pub open spec fn sequence_at(t: Tables, s: Seq<u8>, left: int, st: States) -> Result<
    (Sequence, int),
    ZstdErrorView,
> {
    let code = t.of.entries[st.of].symbol;
    let (ml_base, ml_bits) = match_length_code(t.ml.entries[st.ml].symbol);
    let (ll_base, ll_bits) = literal_length_code(t.ll.entries[st.ll].symbol);
    match back_at(s, left, code as nat) {
        Err(e) => Err(e),
        Ok((off, p)) => match back_at(s, p, ml_bits as nat) {
            Err(e) => Err(e),
            Ok((ml, q)) => match back_at(s, q, ll_bits as nat) {
                Err(e) => Err(e),
                Ok((ll, r)) => Ok(
                    (
                        Sequence {
                            literal_length: (ll_base + ll) as u32,
                            offset: (pow2(code as nat) + off) as u32,
                            match_length: (ml_base + ml) as u32,
                        },
                        r,
                    ),
                ),
            },
        },
    }
}

/// The next state, and how many bits are left.
pub open spec fn state_at(t: FseTableView, s: Seq<u8>, left: int, state: int) -> Result<
    (int, int),
    ZstdErrorView,
> {
    let e = t.entries[state];
    match back_at(s, left, e.nb_bits as nat) {
        Err(x) => Err(x),
        Ok((v, p)) => Ok((e.base_state + v, p)),
    }
}

/// The states for the next sequence, and how many bits are left.
pub open spec fn states_at(t: Tables, s: Seq<u8>, left: int, st: States) -> Result<
    (States, int),
    ZstdErrorView,
> {
    match state_at(t.ll, s, left, st.ll) {
        Err(e) => Err(e),
        Ok((ll, p)) => match state_at(t.ml, s, p, st.ml) {
            Err(e) => Err(e),
            Ok((ml, q)) => match state_at(t.of, s, q, st.of) {
                Err(e) => Err(e),
                Ok((of, r)) => Ok((States { ll, of, ml }, r)),
            },
        },
    }
}

/// The next `n` sequences, behind those in `have`. They use the stream up; the states do not change
/// after the last.
pub open spec fn sequences_from(
    t: Tables,
    s: Seq<u8>,
    left: int,
    st: States,
    n: nat,
    have: Seq<Sequence>,
) -> Result<Seq<Sequence>, ZstdErrorView>
    decreases n,
{
    if n == 0 {
        if left == 0 {
            Ok(have)
        } else {
            Err(ZstdErrorView::UnexpectedEof)
        }
    } else {
        match sequence_at(t, s, left, st) {
            Err(e) => Err(e),
            Ok((q, p)) => if n == 1 {
                sequences_from(t, s, p, st, 0, have.push(q))
            } else {
                match states_at(t, s, p, st) {
                    Err(e) => Err(e),
                    Ok((next, r)) => sequences_from(
                        t,
                        s,
                        r,
                        next,
                        (n - 1) as nat,
                        have.push(q),
                    ),
                }
            },
        }
    }
}

/// The `n` sequences in a stream.
pub open spec fn stream_sequences(t: Tables, s: Seq<u8>, n: nat) -> Result<
    Seq<Sequence>,
    ZstdErrorView,
> {
    match back_bits(s) {
        Err(e) => Err(e),
        Ok(bits) => match back_at(s, bits, t.ll.accuracy_log as nat) {
            Err(e) => Err(e),
            Ok((ll, p)) => match back_at(s, p, t.of.accuracy_log as nat) {
                Err(e) => Err(e),
                Ok((of, q)) => match back_at(s, q, t.ml.accuracy_log as nat) {
                    Err(e) => Err(e),
                    Ok((ml, r)) => sequences_from(t, s, r, States { ll, of, ml }, n, seq![]),
                },
            },
        },
    }
}

fn mode_number(n: u8) -> (r: SeqSymbolMode)
    ensures
        r == mode_of(n),
{
    match n {
        0 => SeqSymbolMode::Predefined,
        1 => SeqSymbolMode::Rle,
        2 => SeqSymbolMode::FseCompressed,
        _ => SeqSymbolMode::Repeat,
    }
}

/// Reads the header of a sequences section.
pub fn parse_sequences_header(b: &[u8]) -> (r: Result<SequencesHeader, ZstdError>)
    ensures
        match (r, sequences_header(b@)) {
            (Ok(v), Ok(w)) => v == w && v.header_len <= b@.len(),
            (Err(x), Err(y)) => x@ == y,
            _ => false,
        },
{
    if b.len() == 0 {
        return Err(ZstdError::UnexpectedEof);
    }
    let first: u32 = b[0] as u32;
    let (n, at): (u32, usize) = if first < 128 {
        (first, 1)
    } else if first < 255 {
        if b.len() < 2 {
            return Err(ZstdError::UnexpectedEof);
        }
        ((first - 128) * 256 + b[1] as u32, 2)
    } else {
        if b.len() < 3 {
            return Err(ZstdError::UnexpectedEof);
        }
        (b[1] as u32 + b[2] as u32 * 256 + 0x7F00, 3)
    };
    if n == 0 {
        return Ok(
            SequencesHeader {
                num_sequences: 0,
                ll_mode: SeqSymbolMode::Predefined,
                of_mode: SeqSymbolMode::Predefined,
                ml_mode: SeqSymbolMode::Predefined,
                header_len: at,
            },
        );
    }
    if b.len() <= at || b[at] % 4 != 0 {
        return Err(ZstdError::UnexpectedEof);
    }
    Ok(
        SequencesHeader {
            num_sequences: n,
            ll_mode: mode_number(b[at] / 64),
            of_mode: mode_number(b[at] / 16 % 4),
            ml_mode: mode_number(b[at] / 4 % 4),
            header_len: at + 1,
        },
    )
}

/// A copy of the shares.
fn copy_shares(s: &[i16]) -> (r: Vec<i16>)
    ensures
        r@ == s@,
{
    let mut out: Vec<i16> = Vec::new();
    out.extend_from_slice(s);
    assert(out@ =~= s@);
    out
}

fn predefined_shares(class: SeqSymbolClass) -> (r: (u32, Vec<i16>))
    ensures
        (r.0 as int, r.1@) == predefined(class),
        shares_ok(r.1@, r.0 as int),
        r.1@.len() <= max_symbol(class) + 1,
{
    proof {
        lemma2_to64();
    }
    match class {
        SeqSymbolClass::LiteralLength => {
            let s: [i16; 36] = LITERAL_LENGTH_SHARES;
            (6, copy_shares(&s))
        },
        SeqSymbolClass::Offset => {
            let s: [i16; 29] = OFFSET_SHARES;
            (5, copy_shares(&s))
        },
        SeqSymbolClass::MatchLength => {
            let s: [i16; 53] = MATCH_LENGTH_SHARES;
            (6, copy_shares(&s))
        },
    }
}

/// What an optional table says.
pub open spec fn table_view(t: Option<&FseTable>) -> Option<FseTableView> {
    match t {
        None => None,
        Some(t) => Some(t@),
    }
}

/// A copy of a table.
fn copy_table(t: &FseTable) -> (r: FseTable)
    ensures
        r@ == t@,
{
    let mut entries: Vec<FseEntry> = Vec::new();
    let mut i: usize = 0;
    while i < t.entries.len()
        invariant
            i <= t.entries@.len(),
            entries@ == t.entries@.take(i as int),
        decreases t.entries@.len() - i,
    {
        entries.push(t.entries[i]);
        i = i + 1;
        proof {
            assert(entries@ =~= t.entries@.take(i as int));
        }
    }
    proof {
        assert(entries@ =~= t.entries@);
    }
    FseTable { accuracy_log: t.accuracy_log, entries }
}

/// The table for a kind of symbol, and how many bytes it takes.
pub fn load_fse_table_for_mode(
    class: SeqSymbolClass,
    mode: SeqSymbolMode,
    b: &[u8],
    prev: Option<&FseTable>,
) -> (r: Result<(FseTable, usize), ZstdError>)
    requires
        prev is Some ==> prev->0@.wf(max_symbol(class)),
    ensures
        match (r, table_for_mode(class, mode, b@, table_view(prev))) {
            (Ok(v), Ok(w)) => v.0@ == w.0 && v.1 == w.1 && v.1 <= b@.len() && w.0.wf(
                max_symbol(class),
            ),
            (Err(x), Err(y)) => x@ == y,
            _ => false,
        },
{
    let top: u32 = match class {
        SeqSymbolClass::LiteralLength => 35,
        SeqSymbolClass::Offset => 31,
        SeqSymbolClass::MatchLength => 52,
    };
    let log_limit: u32 = match class {
        SeqSymbolClass::Offset => 8,
        _ => 9,
    };
    match mode {
        SeqSymbolMode::Predefined => {
            let (log, shares) = predefined_shares(class);
            let t = build_table(log, &shares)?;
            Ok((t, 0))
        },
        SeqSymbolMode::Rle => {
            if b.len() == 0 || b[0] as u32 > top {
                return Err(ZstdError::UnexpectedEof);
            }
            let mut entries: Vec<FseEntry> = Vec::new();
            entries.push(FseEntry { symbol: b[0], nb_bits: 0, base_state: 0 });
            proof {
                lemma2_to64();
                assert(entries@ =~= seq![FseEntry { symbol: b@[0], nb_bits: 0, base_state: 0 }]);
            }
            Ok((FseTable { accuracy_log: 0, entries }, 1))
        },
        SeqSymbolMode::FseCompressed => {
            let (log, shares, n) = read_description(b, log_limit, top)?;
            let t = build_table(log, &shares)?;
            Ok((t, n))
        },
        SeqSymbolMode::Repeat => match prev {
            None => Err(ZstdError::UnexpectedEof),
            Some(t) => Ok((copy_table(t), 0)),
        },
    }
}

fn literal_length_base(code: u8) -> (r: (u32, u32))
    requires
        code <= 35,
    ensures
        r == literal_length_code(code),
        r.0 <= 0x1_0000,
        r.1 <= 16,
{
    match code {
        16 => (16, 1),
        17 => (18, 1),
        18 => (20, 1),
        19 => (22, 1),
        20 => (24, 2),
        21 => (28, 2),
        22 => (32, 3),
        23 => (40, 3),
        24 => (48, 4),
        25 => (64, 6),
        26 => (128, 7),
        27 => (256, 8),
        28 => (512, 9),
        29 => (1024, 10),
        30 => (2048, 11),
        31 => (4096, 12),
        32 => (8192, 13),
        33 => (16384, 14),
        34 => (32768, 15),
        35 => (65536, 16),
        _ => (code as u32, 0),
    }
}

fn match_length_base(code: u8) -> (r: (u32, u32))
    requires
        code <= 52,
    ensures
        r == match_length_code(code),
        r.0 <= 0x2_0000,
        r.1 <= 16,
{
    match code {
        32 => (35, 1),
        33 => (37, 1),
        34 => (39, 1),
        35 => (41, 1),
        36 => (43, 2),
        37 => (47, 2),
        38 => (51, 3),
        39 => (59, 3),
        40 => (67, 4),
        41 => (83, 4),
        42 => (99, 5),
        43 => (131, 7),
        44 => (259, 8),
        45 => (515, 9),
        46 => (1027, 10),
        47 => (2051, 11),
        48 => (4099, 12),
        49 => (8195, 13),
        50 => (16387, 14),
        51 => (32771, 15),
        52 => (65539, 16),
        _ => (code as u32 + 3, 0),
    }
}

/// Two to the power of an offset symbol.
fn offset_base(code: u8) -> (r: u64)
    requires
        code <= 31,
    ensures
        r == pow2(code as nat),
        r <= 0x8000_0000,
{
    let mut r: u64 = 1;
    let mut i: u8 = 0;
    proof {
        lemma2_to64();
    }
    while i < code
        invariant
            i <= code <= 31,
            r == pow2(i as nat),
        decreases code - i,
    {
        proof {
            lemma2_to64();
            vstd::arithmetic::power2::lemma_pow2_strictly_increases(i as nat, 31);
            vstd::arithmetic::power2::lemma_pow2_unfold((i + 1) as nat);
        }
        r = r * 2;
        i = i + 1;
    }
    proof {
        lemma2_to64();
        if code < 31 {
            vstd::arithmetic::power2::lemma_pow2_strictly_increases(code as nat, 31);
        }
    }
    r
}

/// Reads the next sequence.
fn read_sequence(
    ll: &FseTable,
    of: &FseTable,
    ml: &FseTable,
    r: &mut BackReader,
    ll_state: usize,
    of_state: usize,
    ml_state: usize,
) -> (v: Result<Sequence, ZstdError>)
    requires
        old(r).wf(),
        ll@.wf(35),
        of@.wf(31),
        ml@.wf(52),
        ll_state < ll@.entries.len(),
        of_state < of@.entries.len(),
        ml_state < ml@.entries.len(),
    ensures
        final(r).wf(),
        final(r).s == old(r).s,
        match (
            v,
            sequence_at(
                Tables { ll: ll@, of: of@, ml: ml@ },
                old(r).s@,
                old(r).left(),
                States { ll: ll_state as int, of: of_state as int, ml: ml_state as int },
            ),
        ) {
            (Ok(x), Ok(y)) => x == y.0 && final(r).left() == y.1,
            (Err(x), Err(y)) => x@ == y,
            _ => false,
        },
{
    let code: u8 = of.entries[of_state].symbol;
    let ml_code: u8 = ml.entries[ml_state].symbol;
    let ll_code: u8 = ll.entries[ll_state].symbol;
    assert(of@.entries[of_state as int].symbol == code);
    assert(ml@.entries[ml_state as int].symbol == ml_code);
    assert(ll@.entries[ll_state as int].symbol == ll_code);
    let (ml_base, ml_bits) = match_length_base(ml_code);
    let (ll_base, ll_bits) = literal_length_base(ll_code);
    let base: u64 = offset_base(code);
    proof {
        lemma2_to64();
        if ml_bits < 16 {
            vstd::arithmetic::power2::lemma_pow2_strictly_increases(ml_bits as nat, 16);
        }
        if ll_bits < 16 {
            vstd::arithmetic::power2::lemma_pow2_strictly_increases(ll_bits as nat, 16);
        }
    }
    let off: u64 = r.read(code as u32)?;
    let m: u64 = r.read(ml_bits)?;
    let l: u64 = r.read(ll_bits)?;
    Ok(
        Sequence {
            literal_length: ll_base + l as u32,
            offset: (base + off) as u32,
            match_length: ml_base + m as u32,
        },
    )
}

/// Reads the next state.
fn read_state(t: &FseTable, r: &mut BackReader, state: usize, Ghost(max): Ghost<int>) -> (v: Result<
    usize,
    ZstdError,
>)
    requires
        old(r).wf(),
        t@.wf(max),
        state < t@.entries.len(),
    ensures
        final(r).wf(),
        final(r).s == old(r).s,
        match (v, state_at(t@, old(r).s@, old(r).left(), state as int)) {
            (Ok(x), Ok(y)) => x == y.0 && final(r).left() == y.1 && x < t@.entries.len(),
            (Err(x), Err(y)) => x@ == y,
            _ => false,
        },
{
    let e = t.entries[state];
    assert(t@.entries[state as int] == e);
    assert(t@.entries.len() == t.entries.len());
    let v: u64 = r.read(e.nb_bits as u32)?;
    Ok(e.base_state as usize + v as usize)
}

/// Reads the first state.
fn read_first(t: &FseTable, r: &mut BackReader, Ghost(max): Ghost<int>) -> (v: Result<
    usize,
    ZstdError,
>)
    requires
        old(r).wf(),
        t@.wf(max),
    ensures
        final(r).wf(),
        final(r).s == old(r).s,
        match (v, back_at(old(r).s@, old(r).left(), t@.accuracy_log as nat)) {
            (Ok(x), Ok(y)) => x == y.0 && final(r).left() == y.1 && x < t@.entries.len(),
            (Err(x), Err(y)) => x@ == y,
            _ => false,
        },
{
    assert(t@.entries.len() == t.entries.len());
    let v: u64 = r.read(t.accuracy_log as u32)?;
    Ok(v as usize)
}

/// Reads the `n` sequences of a stream.
pub fn decode_sequences_stream(
    b: &[u8],
    ll: &FseTable,
    of: &FseTable,
    ml: &FseTable,
    n: u32,
) -> (r: Result<Vec<Sequence>, ZstdError>)
    requires
        ll@.wf(35),
        of@.wf(31),
        ml@.wf(52),
    ensures
        match (r, stream_sequences(Tables { ll: ll@, of: of@, ml: ml@ }, b@, n as nat)) {
            (Ok(v), Ok(w)) => v@ == w,
            (Err(x), Err(y)) => x@ == y,
            _ => false,
        },
{
    let ghost t = Tables { ll: ll@, of: of@, ml: ml@ };
    let mut r = BackReader::new(b)?;
    let mut ll_state: usize = read_first(ll, &mut r, Ghost(35))?;
    let mut of_state: usize = read_first(of, &mut r, Ghost(31))?;
    let mut ml_state: usize = read_first(ml, &mut r, Ghost(52))?;
    let mut out: Vec<Sequence> = Vec::new();
    let ghost whole = stream_sequences(t, b@, n as nat);
    proof {
        assert(out@ =~= seq![]);
    }
    let mut i: u32 = 0;
    while i < n
        invariant
            i <= n,
            t == (Tables { ll: ll@, of: of@, ml: ml@ }),
            whole == stream_sequences(t, b@, n as nat),
            ll@.wf(35),
            of@.wf(31),
            ml@.wf(52),
            r.wf(),
            r.s == b,
            ll_state < ll@.entries.len(),
            of_state < of@.entries.len(),
            ml_state < ml@.entries.len(),
            whole == sequences_from(
                t,
                b@,
                r.left(),
                States { ll: ll_state as int, of: of_state as int, ml: ml_state as int },
                (n - i) as nat,
                out@,
            ),
        decreases n - i,
    {
        let q = read_sequence(ll, of, ml, &mut r, ll_state, of_state, ml_state)?;
        out.push(q);
        i = i + 1;
        if i < n {
            ll_state = read_state(ll, &mut r, ll_state, Ghost(35))?;
            ml_state = read_state(ml, &mut r, ml_state, Ghost(52))?;
            of_state = read_state(of, &mut r, of_state, Ghost(31))?;
        }
    }
    if !r.is_empty() {
        return Err(ZstdError::UnexpectedEof);
    }
    Ok(out)
}

} // verus!
