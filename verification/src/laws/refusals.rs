//! What must hold of whatever is accepted: everything else is refused.
use vstd::arithmetic::power2::{lemma2_to64, lemma_pow2_adds, pow2};
use vstd::prelude::*;

use crate::bytes::{bit_at, bits_at, le};
use crate::chunk::chunk_ready;
use crate::dict::dict_values;
use crate::error::PqErrorView;
use crate::extract::{leaf_column, leaf_source, named_from, rows_of, SourceView};
use crate::footer::metadata_range;
use crate::gzip::{
    block_content, blocks_output, coded, codes_output, content_start, copies, copy_at, crc32,
    dynamic_lengths, field_at, fixed_dists, fixed_lits, length_extra, length_lengths, lengths_from,
    member_output, symbol_at, symbol_from,
};
use crate::laws::sequences::can_carry_out;
use crate::lz::{copied, lemma_copied};
use crate::lz4;
use crate::laws::v2_payloads::{lemma_nulls, nulls_in};
use crate::meta::{Codec, ColumnChunkView, Encoding, RowGroupView};
use crate::page::{
    checked_levels, first_above, has_above, level_width, levels_v1, levels_v2, v2_levels,
};
use crate::plain::{int96_value, plain_values, PlainSpec};
use crate::rle::prefixed_levels;
use crate::schema::{Repetition, SchemaLeafView, Type};
use crate::value::PqV;
use crate::zstd::{block_header_at, frame_output, window_of};
use crate::zstd_seqexec::{executed, offset_of, RepeatOffsets};
use crate::zstd_sequences::Sequence;

verus! {

/// The bytes at the start and at the end of a file.
pub open spec fn par1() -> Seq<u8> {
    seq![0x50u8, 0x41, 0x52, 0x31]
}

/// A file whose metadata is found starts and ends with the magic bytes, and the metadata stands between
/// the first of them and its length, which stands before the last.
pub proof fn law_footer_checked(file: Seq<u8>)
    ensures
        metadata_range(file) is Ok <==> file.len() >= 12 && file.take(4) == par1() && file.skip(
            file.len() - 4,
        ) == par1() && le(file.subrange(file.len() - 8, file.len() - 4)) <= file.len() - 12,
        metadata_range(file) matches Ok((a, b)) ==> 4 <= a <= b && b == file.len() - 8 && b - a
            == le(file.subrange(file.len() - 8, file.len() - 4)),
{
    assert(crate::footer::MAGIC@ =~= par1());
}

/// Values of a dictionary page are values of the dictionary.
pub proof fn law_dictionary_only(payload: Seq<u8>, dict: Seq<PqV>, n: nat)
    ensures
        dict_values(payload, dict, n) matches Ok(v) ==> forall|i: int|
            0 <= i < v.len() ==> dict.contains(#[trigger] v[i]),
{
    match dict_values(payload, dict, n) {
        Ok(v) => {
            let indices = crate::rle::hybrid(payload.skip(1), payload[0] as nat, n)->Ok_0;
            assert forall|i: int| 0 <= i < v.len() implies dict.contains(#[trigger] v[i]) by {
                assert(indices[i] < dict.len());
                assert(dict[indices[i] as int] == v[i]);
            }
        },
        Err(_) => {},
    }
}

/// How many bytes a value of the type takes, where all take as many.
pub open spec fn value_width(spec: PlainSpec) -> Option<nat> {
    match spec.ptype {
        Type::Int32 => Some(4),
        Type::Float => Some(4),
        Type::Int64 => Some(8),
        Type::Double => Some(8),
        Type::Int96 => Some(12),
        Type::FixedLenByteArray => match spec.flba_len {
            Some(n) => Some(n as nat),
            None => None,
        },
        _ => None,
    }
}

/// Values are read only where there are bytes for all of them. Decimals are read only from integers and
/// byte arrays.
pub proof fn law_plain_room(d: Seq<u8>, spec: PlainSpec, n: nat)
    ensures
        plain_values(d, spec, n) is Ok && value_width(spec) is Some ==> n * value_width(spec)->Some_0
            <= d.len(),
        plain_values(d, spec, n) is Ok && spec.ptype == Type::Boolean ==> n <= 8 * d.len(),
        plain_values(d, spec, n) is Ok && spec.decimal is Some ==> spec.ptype == Type::Int32
            || spec.ptype == Type::Int64 || spec.ptype == Type::ByteArray || spec.ptype
            == Type::FixedLenByteArray || spec.ptype == Type::Int96,
        spec.ptype is Other ==> plain_values(d, spec, n) is Err,
{
}

proof fn lemma_first_above(levels: Seq<u64>, max: u32, i: int, j: int)
    requires
        0 <= i <= j < levels.len(),
        first_above(levels, max, i) is None,
    ensures
        levels[j] <= max,
    decreases j - i,
{
    if i < j {
        lemma_first_above(levels, max, i + 1, j);
    }
}

/// No level above the largest is accepted in a page of a nested column.
pub proof fn law_levels_bounded(
    bytes: Seq<u8>,
    max: u32,
    n: nat,
    kind: Seq<char>,
    surplus: Seq<char>,
)
    ensures
        levels_v1(bytes, max, n, kind) matches Ok((l, _)) ==> forall|i: int|
            0 <= i < l.len() ==> #[trigger] l[i] <= max,
        levels_v2(bytes, max, n, kind, surplus) matches Ok(l) ==> forall|i: int|
            0 <= i < l.len() ==> #[trigger] l[i] <= max,
        max == 0 && bytes.len() > 0 ==> levels_v2(bytes, max, n, kind, surplus) is Err,
{
    if max > 0 {
        match prefixed_levels(bytes, level_width(max), n) {
            Ok((levels, _)) => lemma_checked(levels, max, kind),
            Err(_) => {},
        }
        match crate::rle::hybrid(bytes, level_width(max), n) {
            Ok(levels) => lemma_checked(levels, max, kind),
            Err(_) => {},
        }
    }
}

proof fn lemma_checked(levels: Seq<u64>, max: u32, kind: Seq<char>)
    ensures
        checked_levels(levels, max, kind) matches Ok(l) ==> forall|i: int|
            0 <= i < l.len() ==> #[trigger] l[i] <= max,
{
    match checked_levels(levels, max, kind) {
        Ok(l) => {
            assert forall|i: int| 0 <= i < l.len() implies #[trigger] l[i] <= max by {
                lemma_first_above(levels, max, 0, i);
            }
        },
        Err(_) => {},
    }
}

/// A flat page of the second kind has as many nulls as its header says, and no level above the largest;
/// where there are no levels, none take any bytes.
pub proof fn law_v2_nulls(bytes: Seq<u8>, n: nat, nulls: int, max: u32)
    ensures
        v2_levels(bytes, n, nulls, max) matches Ok((d, present)) ==> if max == 0 {
            d is None && present == n && bytes.len() == 0
        } else {
            &&& d matches Some(defs) && defs.len() == n && nulls_in(defs, max as u64) == nulls
                && present == n - nulls
            &&& forall|i: int| 0 <= i < d->Some_0.len() ==> #[trigger] d->Some_0[i] <= max
        },
{
    if max > 0 {
        match v2_levels(bytes, n, nulls, max) {
            Ok((Some(defs), _)) => {
                crate::laws::counts::law_hybrid_len(bytes, level_width(max), n);
                lemma_nulls(defs, max as u64);
                assert forall|i: int| 0 <= i < defs.len() implies #[trigger] defs[i] <= max by {
                    assert(!has_above(defs, max as u64));
                }
            },
            _ => {},
        }
    }
}

/// What a gzip member gives has the checksum and the length that stand at its end.
pub proof fn law_gzip_checked(s: Seq<u8>, n: nat)
    ensures
        member_output(s, n) matches Ok(out) ==> s.len() >= 18 && le(
            s.subrange(s.len() - 8, s.len() - 4),
        ) == crc32(out) && le(s.subrange(s.len() - 4, s.len() as int)) == out.len() && out.len()
            == n,
{
    match member_output(s, n) {
        Ok(out) => {
            let start = content_start(s)->Ok_0;
            lemma_start(s);
            let c = s.skip(start);
            let p = blocks_output(c, 0, seq![], n)->Ok_0.1;
            let e = (p + 7) / 8;
            lemma_forward(c, 0, seq![], n);
            assert(c.len() == e + 8);
            assert(c.subrange(e, e + 4) =~= s.subrange(s.len() - 8, s.len() - 4));
            assert(c.subrange(e + 4, e + 8) =~= s.subrange(s.len() - 4, s.len() as int));
        },
        Err(_) => {},
    }
}

proof fn lemma_start(s: Seq<u8>)
    ensures
        content_start(s) matches Ok(p) ==> 10 <= p <= s.len(),
{
    match content_start(s) {
        Ok(p) => {
            let p1 = crate::gzip::after_extra(s, 10)->Ok_0;
            lemma_zero(s, p1);
            let p2 = crate::gzip::after_text(s, (s[3] / 8) % 2 == 1, p1)->Ok_0;
            lemma_zero(s, p2);
        },
        Err(_) => {},
    }
}

proof fn lemma_zero(s: Seq<u8>, p: int)
    requires
        0 <= p,
    ensures
        crate::gzip::after_zero(s, p) matches Some(e) ==> p < e <= s.len(),
    decreases s.len() - p,
{
    if p < s.len() && s[p] != 0 {
        lemma_zero(s, p + 1);
    }
}

proof fn lemma_symbol_forward(
    c: Seq<u8>,
    lengths: Seq<u8>,
    p: int,
    len: int,
    code: int,
    first: int,
)
    ensures
        symbol_from(c, lengths, p, len, code, first) matches Ok((_, q)) ==> p < q,
    decreases 16 - len,
{
    if len <= 15 && p < 8 * c.len() {
        let here = 2 * code + bit_at(c, p);
        let n = coded(lengths, len).len();
        if !(first <= here < first + n) {
            lemma_symbol_forward(c, lengths, p + 1, len + 1, here, 2 * (first + n));
        }
    }
}

proof fn lemma_codes_forward(
    c: Seq<u8>,
    lits: Seq<u8>,
    dists: Seq<u8>,
    p: int,
    out: Seq<u8>,
    n: nat,
)
    ensures
        codes_output(c, lits, dists, p, out, n) matches Ok((_, q)) ==> p <= q,
    decreases 8 * c.len() - p,
{
    lemma_symbol_forward(c, lits, p, 1, 0, 0);
    match symbol_at(c, lits, p) {
        Ok((sym, p1)) => {
            if p < p1 <= 8 * c.len() {
                if sym < 256 {
                    lemma_codes_forward(c, lits, dists, p1, out.push(sym as u8), n);
                } else if sym > 256 {
                    match copy_at(c, dists, sym, p1) {
                        Ok((len, dist, p2)) => {
                            let q1 = field_at(c, p1, length_extra(sym) as nat)->Ok_0.1;
                            lemma_symbol_forward(c, dists, q1, 1, 0, 0);
                            if p1 <= p2 <= 8 * c.len() {
                                lemma_codes_forward(
                                    c,
                                    lits,
                                    dists,
                                    p2,
                                    copied(out, dist, len as nat),
                                    n,
                                );
                            }
                        },
                        Err(_) => {},
                    }
                }
            }
        },
        Err(_) => {},
    }
}

proof fn lemma_length_lengths_forward(c: Seq<u8>, p: int, k: nat)
    ensures
        length_lengths(c, p, k) matches Ok((_, q)) ==> p <= q,
    decreases k,
{
    if k > 0 {
        lemma_length_lengths_forward(c, p, (k - 1) as nat);
    }
}

proof fn lemma_lengths_forward(c: Seq<u8>, code: Seq<u8>, p: int, have: Seq<u8>, total: int)
    ensures
        lengths_from(c, code, p, have, total) matches Ok((_, q)) ==> p <= q,
    decreases 8 * c.len() - p,
{
    lemma_symbol_forward(c, code, p, 1, 0, 0);
    if have.len() < total {
        match symbol_at(c, code, p) {
            Ok((sym, p1)) => {
                if p < p1 <= 8 * c.len() {
                    if sym < 16 {
                        lemma_lengths_forward(c, code, p1, have.push(sym as u8), total);
                    } else if !(sym == 16 && have.len() == 0) {
                        let width = if sym == 16 {
                            2nat
                        } else if sym == 17 {
                            3nat
                        } else {
                            7nat
                        };
                        let base = if sym == 18 {
                            11int
                        } else {
                            3int
                        };
                        let v = if sym == 16 {
                            have.last()
                        } else {
                            0u8
                        };
                        match field_at(c, p1, width) {
                            Ok((more, p2)) => {
                                lemma_lengths_forward(
                                    c,
                                    code,
                                    p2,
                                    have + copies(v, base + more),
                                    total,
                                );
                            },
                            Err(_) => {},
                        }
                    }
                }
            },
            Err(_) => {},
        }
    }
}

proof fn lemma_forward(c: Seq<u8>, p: int, out: Seq<u8>, n: nat)
    requires
        0 <= p,
    ensures
        blocks_output(c, p, out, n) matches Ok((_, q)) ==> p <= q,
    decreases 8 * c.len() - p,
{
    if p + 3 <= 8 * c.len() {
        let kind = bits_at(c, p + 1, 2) as int;
        lemma_codes_forward(c, fixed_lits(), fixed_dists(), p + 3, out, n);
        if kind == 2 {
            match dynamic_lengths(c, p + 3) {
                Ok((lits, dists, p1)) => {
                    let ncode = bits_at(c, p + 13, 4) + 4;
                    lemma_length_lengths_forward(c, p + 17, ncode);
                    match length_lengths(c, p + 17, ncode) {
                        Ok((code, q)) => {
                            let nlit = bits_at(c, p + 3, 5) as int + 257;
                            let ndist = bits_at(c, p + 8, 5) as int + 1;
                            lemma_lengths_forward(c, code, q, Seq::empty(), nlit + ndist);
                        },
                        Err(_) => {},
                    }
                    lemma_codes_forward(c, lits, dists, p1, out, n);
                },
                Err(_) => {},
            }
        }
        match block_content(c, kind, p + 3, out, n) {
            Ok((out2, p2)) => {
                if !(bit_at(c, p) == 1 || !(p < p2 <= 8 * c.len())) {
                    lemma_forward(c, p2, out2, n);
                }
            },
            Err(_) => {},
        }
    }
}

/// A frame starts with the magic bytes of Zstandard.
pub proof fn law_zstd_magic(b: Seq<u8>)
    ensures
        frame_output(b) is Ok ==> b.len() >= 4 && b.take(4) == seq![0x28u8, 0xB5, 0x2F, 0xFD],
{
    assert(crate::zstd::ZSTD_MAGIC@ =~= seq![0x28u8, 0xB5, 0x2F, 0xFD]);
}

/// The rows of columns: each is one value of every column, in the order of the columns, and there are as
/// many rows as every column has values. Columns of different lengths make no rows.
pub proof fn law_rows(columns: Seq<Seq<PqV>>)
    ensures
        columns.len() == 0 ==> rows_of(columns) == Ok::<Seq<Seq<PqV>>, PqErrorView>(seq![]),
        columns.len() > 0 ==> (rows_of(columns) is Ok <==> forall|c: int|
            0 <= c < columns.len() ==> (#[trigger] columns[c]).len() == columns[0].len()),
        rows_of(columns) matches Ok(rows) ==> forall|r: int, c: int|
            0 <= r < rows.len() && 0 <= c < columns.len() ==> rows[r].len() == columns.len()
                && rows.len() == columns[c].len() && #[trigger] rows[r][c] == columns[c][r],
{
    if columns.len() == 0 {
        assert(rows_of(columns)->Ok_0 =~= seq![]);
    }
    if columns.len() > 0 {
        assert(crate::extract::row_count(columns) == columns[0].len());
        assert forall|c: int| 0 <= c < columns.len() && rows_of(columns) is Ok implies (
        #[trigger] columns[c]).len() == columns[0].len() by {
            if columns[c].len() != columns[0].len() {
                assert(columns[c].len() != crate::extract::row_count(columns));
            }
        }
    }
}

proof fn lemma_named(columns: Seq<ColumnChunkView>, name: Seq<char>, i: int)
    requires
        0 <= i,
    ensures
        named_from(columns, name, i) matches Some(cc) ==> columns.contains(cc) && cc.path.len() > 0
            && cc.path.last() == name,
    decreases columns.len() - i,
{
    if i < columns.len() && !crate::extract::ends_in(columns[i], name) {
        lemma_named(columns, name, i + 1);
    }
}

/// A leaf of a flat file is read from a chunk whose path ends in its name and which is of its type; and
/// it neither repeats nor is of an unknown type.
pub proof fn law_flat_source(
    leaves: Seq<SchemaLeafView>,
    file: Seq<u8>,
    g: RowGroupView,
    name: Seq<char>,
    cap: int,
)
    ensures
        leaf_source(leaves, name) matches Ok(SourceView::Leaf {
            name: n,
            spec,
            ptype,
            max_def_level,
        }) ==> n == name && (max_def_level == 0 || max_def_level == 1) && !(ptype is Other) && (
        leaf_column(file, g, name, spec, ptype, max_def_level, cap) is Ok ==> exists|j: int|
            0 <= j < g.columns.len() && (#[trigger] g.columns[j]).ptype == ptype
                && g.columns[j].path.len() > 0 && g.columns[j].path.last() == name),
        leaf_source(leaves, name) is Ok ==> exists|j: int|
            0 <= j < leaves.len() && (#[trigger] leaves[j]).name == name && (leaves[j].repetition
                == Repetition::Required || leaves[j].repetition == Repetition::Optional),
{
    lemma_named(g.columns, name, 0);
    lemma_leaf(leaves, name);
    match leaf_source(leaves, name) {
        Ok(SourceView::Leaf { spec, ptype, max_def_level, .. }) => {
            if leaf_column(file, g, name, spec, ptype, max_def_level, cap) is Ok {
                let cc = named_from(g.columns, name, 0)->Some_0;
                let j = choose|j: int| 0 <= j < g.columns.len() && g.columns[j] == cc;
                assert(g.columns[j].ptype == ptype);
            }
        },
        _ => {},
    }
}

proof fn lemma_leaf(leaves: Seq<SchemaLeafView>, name: Seq<char>)
    ensures
        crate::leaf::find_leaf(leaves, name) matches Some(l) ==> l.name == name && exists|j: int|
            0 <= j < leaves.len() && #[trigger] leaves[j] == l,
    decreases leaves.len(),
{
    if leaves.len() > 0 {
        let rest = leaves.drop_first();
        lemma_leaf(rest, name);
        match crate::leaf::find_leaf(leaves, name) {
            Some(l) => {
                if leaves[0] != l {
                    let j = choose|j: int| 0 <= j < rest.len() && #[trigger] rest[j] == l;
                    assert(leaves[j + 1] == l);
                } else {
                    assert(leaves[0] == l);
                }
            },
            None => {},
        }
    }
}

/// A chunk is read only where its codec is one of those with the numbers 0, 1, 2, 6 and 7, and each of
/// its encodings one of those with the numbers 0, 2, 3 and 8.
pub proof fn law_chunk_ready(cc: ColumnChunkView, codec: i32, encodings: Seq<i32>)
    requires
        cc.codec == Codec::of(codec),
        cc.encodings == encodings.map_values(|e: i32| Encoding::of(e)),
    ensures
        chunk_ready(cc) is Ok <==> (codec == 0 || codec == 1 || codec == 2 || codec == 6 || codec
            == 7) && forall|i: int|
            0 <= i < encodings.len() ==> #[trigger] encodings[i] == 0 || encodings[i] == 2
                || encodings[i] == 3 || encodings[i] == 8,
{
    assert forall|i: int| 0 <= i < encodings.len() implies (crate::chunk::encoding_known(
        #[trigger] cc.encodings[i],
    ) <==> encodings[i] == 0 || encodings[i] == 2 || encodings[i] == 3 || encodings[i] == 8) by {}
    if chunk_ready(cc) is Ok {
        assert forall|i: int| 0 <= i < encodings.len() implies #[trigger] encodings[i] == 0
            || encodings[i] == 2 || encodings[i] == 3 || encodings[i] == 8 by {
            assert(crate::chunk::encoding_known(cc.encodings[i]));
        }
    }
}

/// A frame that is accepted asks for no dictionary and has no reserved bit set.
pub proof fn law_zstd_header_checked(b: Seq<u8>)
    ensures
        frame_output(b) is Ok ==> b.len() >= 5 && b[4] % 4 == 0 && (b[4] / 8) % 2 == 0,
{
}

/// A block that is accepted is of one of the three types and of at most 128 KiB.
pub proof fn law_zstd_block_checked(b: Seq<u8>, p: int)
    requires
        0 <= p,
    ensures
        block_header_at(b, p) matches Ok((h, q)) ==> q == p + 3 && q <= b.len() && h.block_size
            <= 0x2_0000 && h.block_size == le(b.subrange(p, p + 3)) / 8 && le(b.subrange(p, p + 3))
            / 2 % 4 < 3 && (h.last_block <==> le(b.subrange(p, p + 3)) % 2 == 1),
{
    if p + 3 <= b.len() {
        let t = b.subrange(p, p + 3);
        crate::bytes::lemma_pow256_values();
        crate::bytes::lemma_le_bound(t);
        assert(t.len() == 3);
    }
}

/// Sequences are carried out only where there are literals enough, and each offset reaches back to what
/// is there.
pub proof fn law_executed_only(
    qs: Seq<Sequence>,
    i: int,
    literals: Seq<u8>,
    at: int,
    r: RepeatOffsets,
    out: Seq<u8>,
    cap: usize,
)
    requires
        0 <= at <= literals.len(),
        out.len() <= cap,
    ensures
        executed(qs, i, literals, at, r, out, cap) matches Ok((o, _)) ==> can_carry_out(
            qs,
            i,
            literals,
            at,
            r,
            out.len() as int,
        ) && o.len() <= cap,
    decreases qs.len() - i,
{
    if i < qs.len() {
        let q = qs[i];
        let end = at + q.literal_length;
        let (offset, next) = offset_of(r, q.offset, q.literal_length);
        if end <= literals.len() && out.len() + q.literal_length + q.match_length <= cap && offset
            != 0 && offset <= out.len() + q.literal_length {
            let before = out + literals.subrange(at, end);
            lemma_copied(before, offset as int, q.match_length as nat);
            law_executed_only(
                qs,
                i + 1,
                literals,
                end,
                next,
                copied(before, offset as int, q.match_length as nat),
                cap,
            );
        }
    }
}

/// A copy of an LZ4 block is of at least four bytes, from no further back than there is output.
pub proof fn law_lz4_copy(d: Seq<u8>, p: int, token: u8, have: int)
    requires
        0 <= p,
    ensures
        lz4::match_at(d, p, token, have) matches Ok((offset, len, _)) ==> 1 <= offset <= have && p + 2
            <= d.len() && offset == le(d.subrange(p, p + 2)) && (token % 16 < 15 ==> len == token
            % 16 + 4),
{
}

/// A time in twelve bytes is accepted only where the nanoseconds are those of one day and 64 bits hold
/// the time: it is the days since the first of January 1970 and the nanoseconds together.
pub proof fn law_int96_only(s: Seq<u8>)
    requires
        s.len() == 12,
    ensures
        ({
            let nanos = le(s.subrange(0, 8)) as int;
            let days = le(s.subrange(8, 12)) as int - 2_440_588;
            let t = days * 86_400_000_000_000 + nanos;
            &&& int96_value(s) is Ok ==> nanos < 86_400_000_000_000 && int96_value(s)->Ok_0
                == PqV::Timestamp(t as i64) && i64::MIN <= t <= i64::MAX
            &&& nanos < 86_400_000_000_000 && i64::MIN <= days * 86_400_000_000_000 && t <= i64::MAX
                ==> int96_value(s) is Ok
        }),
{
}

/// The window of a frame is a power of two, from 1 KiB on, and so many eighths of it.
pub proof fn law_window(descriptor: u8)
    ensures
        8 * window_of(descriptor) == pow2((10 + descriptor / 8) as nat) * (8 + descriptor % 8),
{
    let e = (descriptor / 8) as nat;
    let m = (descriptor % 8) as int;
    lemma2_to64();
    lemma_pow2_adds(10, e);
    let q = pow2(e) as int;
    let base = 1024 * q;
    assert(base / 8 == 128 * q);
    assert(8 * (base + 128 * q * m) == base * (8 + m)) by (nonlinear_arith)
        requires
            base == 1024 * q,
    ;
}

} // verus!
