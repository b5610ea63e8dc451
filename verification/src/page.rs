//! Data pages: levels, then the values that are present.
use vstd::arithmetic::power2::{lemma2_to64, pow2};
use vstd::prelude::*;
use vstd::slice::slice_subrange;
use vstd::string::*;

use crate::codec::{expand, expanded, FrameWords};
use crate::dict::{dict_values, resolve_dict_indices};
use crate::error::{bad, decimal, decimal_text, text5, unsupported, PqError, PqErrorView};
use crate::meta::{Codec, PageHeader};
use crate::plain::{decode_plain, decodes, lemma_plain_len, plain_values, Plain, PlainSpec};
use crate::rle::{decode_hybrid, decode_level_v1, hybrid, prefixed_levels};
use crate::snappy::yields;
use crate::value::{copy_bytes, values, PqV, PqValue};
use crate::zstd_fse::{high_bit, lemma_top_bit, top_bit};

verus! {

/// Whether a page of `size` bytes is within the cap: the complaint where it is not. `what` names
/// the page.
pub open spec fn page_size(what: Seq<char>, size: int, cap: int) -> Result<(), PqErrorView> {
    if size > cap {
        Err(
            PqErrorView::Unsupported(
                what + " size "@ + decimal(size) + " exceeds max_page_size cap "@ + decimal(cap)
                    + ": SP151 (raise via kessel_parquet::extract_with_cap)"@,
            ),
        )
    } else {
        Ok(())
    }
}

/// A length in the machine's own type, or the complaint.
pub open spec fn length_of(n: int, complaint: Seq<char>) -> Result<int, PqErrorView> {
    if 0 <= n <= usize::MAX {
        Ok(n)
    } else {
        Err(PqErrorView::Bad(complaint))
    }
}

/// How a failed Zstandard page is spoken of.
pub open spec fn page_words() -> FrameWords {
    FrameWords {
        decode: "zstd decode: ",
        size: "zstd page decompressed size ",
        wanted: " != declared ",
    }
}

/// How the failed Zstandard values of a flat page of the second kind are spoken of.
pub open spec fn v2_words() -> FrameWords {
    FrameWords {
        decode: "v2 zstd values decode: ",
        size: "v2 zstd values decompressed size ",
        wanted: " != target ",
    }
}

/// How the failed Zstandard values of a nested page of the second kind are spoken of.
pub open spec fn nested_v2_words() -> FrameWords {
    FrameWords {
        decode: "nested v2 zstd values decode: ",
        size: "nested v2 zstd values decompressed size ",
        wanted: " != target ",
    }
}

/// The payload of the page that takes `comp` bytes at `start` of the file.
pub open spec fn payload_of(file: Seq<u8>, start: int, comp: int, uncomp: int, codec: Codec) -> Result<
    Seq<u8>,
    PqErrorView,
> {
    if start + comp > usize::MAX {
        Err(PqErrorView::Bad("page region ovf"@))
    } else if start + comp > file.len() {
        Err(PqErrorView::Bad("page data truncated"@))
    } else {
        expanded(codec, file.subrange(start, start + comp), uncomp as nat, page_words())
    }
}

/// How often `v` occurs.
pub open spec fn occurrences(s: Seq<u64>, v: u64) -> nat
    decreases s.len(),
{
    if s.len() == 0 {
        0
    } else {
        occurrences(s.drop_last(), v) + if s.last() == v {
            1nat
        } else {
            0nat
        }
    }
}

/// The values in the slots whose level is `max`, and nulls in the others.
pub open spec fn scattered(defs: Seq<u64>, vals: Seq<PqV>, max: u64) -> Plain {
    if occurrences(defs, max) > vals.len() {
        Err(PqErrorView::Bad("value/def-level count mismatch"@))
    } else {
        Ok(
            Seq::new(
                defs.len(),
                |i: int|
                    if defs[i] == max {
                        vals[occurrences(defs.take(i), max) as int]
                    } else {
                        PqV::Null
                    },
            ),
        )
    }
}

/// The `n` values of a page in one of its encodings.
pub open spec fn encoded_values(
    payload: Seq<u8>,
    encoding: i32,
    spec: PlainSpec,
    n: nat,
    dict: Seq<PqV>,
) -> Plain {
    if encoding == 0 {
        plain_values(payload, spec, n)
    } else if encoding == 2 || encoding == 8 {
        dict_values(payload, dict, n)
    } else {
        Err(PqErrorView::Unsupported("data page encoding (DELTA/BYTE_STREAM_SPLIT): OBJ-2c"@))
    }
}

/// Whether a level is above `max`.
pub open spec fn has_above(levels: Seq<u64>, max: u64) -> bool {
    exists|i: int| 0 <= i < levels.len() && #[trigger] levels[i] > max
}

/// The `n` values of a flat page of the first kind. Where the column or what is around it may be
/// absent, a level for each value says whether it is there: it is where the level is the largest.
#[verifier::opaque]
pub open spec fn flat_page(
    payload: Seq<u8>,
    encoding: i32,
    spec: PlainSpec,
    n: nat,
    max_def_level: u32,
    dict: Seq<PqV>,
) -> Plain {
    if max_def_level == 0 {
        encoded_values(payload, encoding, spec, n, dict)
    } else {
        match prefixed_levels(payload, level_width(max_def_level), n) {
            Err(e) => Err(e),
            Ok((defs, used)) => if has_above(defs, max_def_level as u64) {
                Err(PqErrorView::Bad("definition level exceeds max"@))
            } else {
                match encoded_values(
                    payload.skip(used),
                    encoding,
                    spec,
                    occurrences(defs, max_def_level as u64),
                    dict,
                ) {
                    Err(e) => Err(e),
                    Ok(vals) => scattered(defs, vals, max_def_level as u64),
                }
            },
        }
    }
}

/// The values section of a page of the second kind, which stands for `n` bytes: as it is, where the
/// column or the page is not compressed.
pub open spec fn v2_section(
    codec: Codec,
    compressed: bool,
    s: Seq<u8>,
    n: nat,
    w: FrameWords,
    mismatch: Seq<char>,
) -> Result<Seq<u8>, PqErrorView> {
    if codec == Codec::Uncompressed || !compressed {
        if s.len() != n {
            Err(PqErrorView::Bad(mismatch))
        } else {
            Ok(s)
        }
    } else {
        expanded(codec, s, n, w)
    }
}

/// The levels of a flat page of the second kind, if it has levels, and how many values are there.
pub open spec fn v2_levels(bytes: Seq<u8>, n: nat, nulls: int, max_def_level: u32) -> Result<
    (Option<Seq<u64>>, nat),
    PqErrorView,
> {
    if max_def_level > 0 {
        match hybrid(bytes, level_width(max_def_level), n) {
            Err(e) => Err(e),
            Ok(defs) => if has_above(defs, max_def_level as u64) {
                Err(PqErrorView::Bad("v2 def-level exceeds max"@))
            } else {
                match length_of(nulls, "v2 num_nulls range"@) {
                    Err(e) => Err(e),
                    Ok(nulls) => if n - nulls != occurrences(defs, max_def_level as u64) {
                        Err(PqErrorView::Bad("v2 num_nulls vs def-levels mismatch"@))
                    } else {
                        Ok((Some(defs), occurrences(defs, max_def_level as u64)))
                    },
                }
            },
        }
    } else if bytes.len() != 0 {
        Err(PqErrorView::Bad("v2 def_len non-zero for REQUIRED"@))
    } else {
        Ok((None, n))
    }
}

/// The values of a flat page of the second kind, whose levels take the first `def_len` bytes.
pub open spec fn flat_v2_values(
    region: Seq<u8>,
    def_len: int,
    n: nat,
    h: PageHeader,
    codec: Codec,
    spec: PlainSpec,
    max_def_level: u32,
    dict: Seq<PqV>,
    cap: int,
) -> Plain {
    match v2_levels(region.take(def_len), n, h.v2_num_nulls as int, max_def_level) {
        Err(e) => Err(e),
        Ok((defs, present)) => match length_of(
            h.uncompressed_size as int,
            "v2 uncompressed size range"@,
        ) {
            Err(e) => Err(e),
            Ok(uncomp) => match page_size("v2 page uncompressed"@, uncomp, cap) {
                Err(e) => Err(e),
                Ok(_) => if uncomp < def_len {
                    Err(PqErrorView::Bad("v2 values target underflow"@))
                } else {
                    match v2_section(
                        codec,
                        h.v2_is_compressed,
                        region.skip(def_len),
                        (uncomp - def_len) as nat,
                        v2_words(),
                        "v2 raw values length mismatch"@,
                    ) {
                        Err(e) => Err(e),
                        Ok(body) => match encoded_values(
                            body,
                            h.v2_encoding,
                            spec,
                            present,
                            dict,
                        ) {
                            Err(e) => Err(e),
                            Ok(vals) => match defs {
                                Some(d) => scattered(d, vals, max_def_level as u64),
                                None => Ok(vals),
                            },
                        },
                    }
                },
            },
        },
    }
}

/// The values of a flat page of the second kind.
#[verifier::opaque]
pub open spec fn flat_page_v2(
    region: Seq<u8>,
    h: PageHeader,
    codec: Codec,
    spec: PlainSpec,
    max_def_level: u32,
    dict: Seq<PqV>,
    cap: int,
) -> Plain {
    if h.v2_rep_len < 0 {
        Err(PqErrorView::Bad("v2 rep_len range"@))
    } else if h.v2_rep_len > 0 {
        Err(PqErrorView::Unsupported("REPEATED/nested V2 (repetition levels): OBJ-2c-5"@))
    } else if h.v2_def_len < 0 {
        Err(PqErrorView::Bad("v2 def_len range"@))
    } else if h.v2_num_values < 0 {
        Err(PqErrorView::Bad("v2 num_values range"@))
    } else if h.v2_def_len > region.len() {
        Err(PqErrorView::Bad("v2 levels exceed page"@))
    } else {
        flat_v2_values(
            region,
            h.v2_def_len as int,
            h.v2_num_values as nat,
            h,
            codec,
            spec,
            max_def_level,
            dict,
            cap,
        )
    }
}

/// The width of a level: the fewest bits that hold every number up to `max`.
pub open spec fn level_width(max: u32) -> nat {
    if max == 0 {
        0
    } else {
        top_bit(max as nat) + 1
    }
}

/// Every number up to `max` has at most `w` bits, and `w` is the least such number.
pub open spec fn is_width(w: nat, max: u32) -> bool {
    max < pow2(w) && (w == 0 || max >= pow2((w - 1) as nat))
}

/// The first level above `max` from level `i` on.
pub open spec fn first_above(levels: Seq<u64>, max: u32, i: int) -> Option<u64>
    decreases levels.len() - i,
{
    if i < 0 || i >= levels.len() {
        None
    } else if levels[i] > max {
        Some(levels[i])
    } else {
        first_above(levels, max, i + 1)
    }
}

/// The levels, none of them above `max`; `kind` names them.
pub open spec fn checked_levels(levels: Seq<u64>, max: u32, kind: Seq<char>) -> Result<
    Seq<u32>,
    PqErrorView,
> {
    match first_above(levels, max, 0) {
        Some(l) => Err(
            PqErrorView::Bad(kind + " level "@ + decimal(l as int) + " > max "@ + decimal(max as int)),
        ),
        None => Ok(levels.map_values(|l: u64| l as u32)),
    }
}

/// `n` levels that are all zero.
pub open spec fn no_levels(n: nat) -> Seq<u32> {
    Seq::new(n, |i: int| 0u32)
}

/// The levels at the start of a nested page of the first kind, and how many bytes they take.
pub open spec fn levels_v1(payload: Seq<u8>, max: u32, n: nat, kind: Seq<char>) -> Result<
    (Seq<u32>, int),
    PqErrorView,
> {
    if max == 0 {
        Ok((no_levels(n), 0))
    } else {
        match prefixed_levels(payload, level_width(max), n) {
            Err(e) => Err(e),
            Ok((levels, used)) => match checked_levels(levels, max, kind) {
                Err(e) => Err(e),
                Ok(l) => Ok((l, used)),
            },
        }
    }
}

/// The levels in `bytes` of a nested page of the second kind.
pub open spec fn levels_v2(
    bytes: Seq<u8>,
    max: u32,
    n: nat,
    kind: Seq<char>,
    surplus: Seq<char>,
) -> Result<Seq<u32>, PqErrorView> {
    if max == 0 {
        if bytes.len() != 0 {
            Err(PqErrorView::Bad(surplus))
        } else {
            Ok(no_levels(n))
        }
    } else {
        match hybrid(bytes, level_width(max), n) {
            Err(e) => Err(e),
            Ok(levels) => checked_levels(levels, max, kind),
        }
    }
}

/// How many levels are `max`.
pub open spec fn at_max(levels: Seq<u32>, max: u32) -> nat
    decreases levels.len(),
{
    if levels.len() == 0 {
        0
    } else {
        at_max(levels.drop_last(), max) + if levels.last() == max {
            1nat
        } else {
            0nat
        }
    }
}

/// The repetition levels, the definition levels and the values of a page.
pub type Levels = (Seq<u32>, Seq<u32>, Seq<PqV>);

/// A nested page of the first kind.
#[verifier::opaque]
pub open spec fn nested_page(
    payload: Seq<u8>,
    encoding: i32,
    spec: PlainSpec,
    n: nat,
    max_rep: u32,
    max_def: u32,
    dict: Seq<PqV>,
) -> Result<Levels, PqErrorView> {
    match levels_v1(payload, max_rep, n, "nested v1 rep"@) {
        Err(e) => Err(e),
        Ok((rep, p)) => match levels_v1(payload.skip(p), max_def, n, "nested v1 def"@) {
            Err(e) => Err(e),
            Ok((def, q)) => match encoded_values(
                payload.skip(p).skip(q),
                encoding,
                spec,
                at_max(def, max_def),
                dict,
            ) {
                Err(e) => Err(e),
                Ok(vals) => Ok((rep, def, vals)),
            },
        },
    }
}

/// A nested page of the second kind: `rep_len` bytes of repetition levels, `def_len` bytes of
/// definition levels, then the values.
#[verifier::opaque]
pub open spec fn nested_page_v2(
    payload: Seq<u8>,
    encoding: i32,
    spec: PlainSpec,
    n: nat,
    max_rep: u32,
    max_def: u32,
    rep_len: int,
    def_len: int,
    compressed: bool,
    codec: Codec,
    uncomp: int,
    dict: Seq<PqV>,
) -> Result<Levels, PqErrorView> {
    let end = rep_len + def_len;
    if end > usize::MAX {
        Err(PqErrorView::Bad("nested v2 level len ovf"@))
    } else if end > payload.len() {
        Err(PqErrorView::Bad("nested v2 level sections exceed page"@))
    } else {
        match levels_v2(
            payload.take(rep_len),
            max_rep,
            n,
            "nested v2 rep"@,
            "nested v2 rep_len non-zero for max_rep_level=0"@,
        ) {
            Err(e) => Err(e),
            Ok(rep) => match levels_v2(
                payload.subrange(rep_len, end),
                max_def,
                n,
                "nested v2 def"@,
                "nested v2 def_len non-zero for max_def_level=0"@,
            ) {
                Err(e) => Err(e),
                Ok(def) => if uncomp < end {
                    Err(PqErrorView::Bad("nested v2 values target underflow"@))
                } else {
                    match v2_section(
                        codec,
                        compressed,
                        payload.skip(end),
                        (uncomp - end) as nat,
                        nested_v2_words(),
                        "nested v2 raw values length mismatch"@,
                    ) {
                        Err(e) => Err(e),
                        Ok(body) => match encoded_values(
                            body,
                            encoding,
                            spec,
                            at_max(def, max_def),
                            dict,
                        ) {
                            Err(e) => Err(e),
                            Ok(vals) => Ok((rep, def, vals)),
                        },
                    }
                },
            },
        }
    }
}

/// The width of a level holds every number up to `max`, and no smaller width does.
pub proof fn lemma_level_width(max: u32)
    ensures
        is_width(level_width(max), max),
{
    lemma2_to64();
    if max > 0 {
        lemma_top_bit(max as nat);
    }
}

/// Checks that a page of `size` bytes is within the cap, before anything of that size is made.
/// `what` names the page.
pub fn check_page_size(what: &str, size: usize, max_page_size: usize) -> (r: Result<(), PqError>)
    ensures
        match (r, page_size(what@, size as int, max_page_size as int)) {
            (Ok(_), Ok(_)) => true,
            (Err(x), Err(y)) => x@ == y,
            _ => false,
        },
{
    if size > max_page_size {
        let n = decimal_text(size as i128);
        let cap = decimal_text(max_page_size as i128);
        let mut m = text5(
            what,
            " size ",
            n.as_str(),
            " exceeds max_page_size cap ",
            cap.as_str(),
        );
        m.append(": SP151 (raise via kessel_parquet::extract_with_cap)");
        return Err(PqError::Unsupported(m));
    }
    Ok(())
}

/// A length in the machine's own type, or the complaint.
pub fn to_length(n: i64, complaint: &str) -> (r: Result<usize, PqError>)
    ensures
        match (r, length_of(n as int, complaint@)) {
            (Ok(v), Ok(w)) => v == w,
            (Err(x), Err(y)) => x@ == y,
            _ => false,
        },
{
    if n < 0 || n as u64 > usize::MAX as u64 {
        return Err(bad(complaint));
    }
    Ok(n as usize)
}

/// The payload of the page that takes `comp` bytes at `start` of the file, decompressed to `uncomp`
/// bytes.
pub fn page_payload(file: &[u8], start: usize, comp: usize, uncomp: usize, codec: Codec) -> (r: Result<
    Vec<u8>,
    PqError,
>)
    ensures
        yields(r, payload_of(file@, start as int, comp as int, uncomp as int, codec)),
        r is Ok ==> start + comp <= file@.len(),
{
    let end: usize = match start.checked_add(comp) {
        Some(e) => e,
        None => {
            return Err(bad("page region ovf"));
        },
    };
    if end > file.len() {
        return Err(bad("page data truncated"));
    }
    let words = FrameWords {
        decode: "zstd decode: ",
        size: "zstd page decompressed size ",
        wanted: " != declared ",
    };
    expand(codec, slice_subrange(file, start, end), uncomp, words)
}

proof fn lemma_occurrences_take(s: Seq<u64>, v: u64, i: int)
    requires
        0 <= i < s.len(),
    ensures
        occurrences(s.take(i + 1), v) == occurrences(s.take(i), v) + if s[i] == v {
            1nat
        } else {
            0nat
        },
{
    assert(s.take(i + 1).drop_last() =~= s.take(i));
}

proof fn lemma_occurrences_grow(s: Seq<u64>, v: u64, i: int)
    requires
        0 <= i <= s.len(),
    ensures
        occurrences(s.take(i), v) <= occurrences(s, v),
    decreases s.len() - i,
{
    if i == s.len() {
        assert(s.take(i) =~= s);
    } else {
        lemma_occurrences_take(s, v, i);
        lemma_occurrences_grow(s, v, i + 1);
    }
}

/// Puts the values in the slots whose level is `max_level`, and nulls in the others.
pub fn scatter_nulls(defs: &Vec<u64>, vals: Vec<PqValue>, max_level: u32) -> (r: Result<
    Vec<PqValue>,
    PqError,
>)
    ensures
        decodes(r, scattered(defs@, values(vals@), max_level as u64)),
        r matches Ok(v) ==> v@.len() == defs@.len(),
{
    let max: u64 = max_level as u64;
    let mut out: Vec<PqValue> = Vec::new();
    let mut k: usize = 0;
    let mut i: usize = 0;
    proof {
        assert(defs@.take(0) =~= seq![]);
    }
    while i < defs.len()
        invariant
            i <= defs@.len(),
            max == max_level,
            out@.len() == i,
            k == occurrences(defs@.take(i as int), max),
            k <= vals@.len(),
            forall|j: int|
                0 <= j < i ==> (#[trigger] out@[j])@ == (if defs@[j] == max {
                    values(vals@)[occurrences(defs@.take(j), max) as int]
                } else {
                    PqV::Null
                }),
        decreases defs@.len() - i,
    {
        proof {
            lemma_occurrences_take(defs@, max, i as int);
            lemma_occurrences_grow(defs@, max, i + 1);
        }
        if defs[i] == max {
            if k >= vals.len() {
                return Err(bad("value/def-level count mismatch"));
            }
            out.push(vals[k].clone());
            k = k + 1;
        } else {
            out.push(PqValue::Null);
        }
        i = i + 1;
    }
    proof {
        assert(defs@.take(i as int) =~= defs@);
        assert(values(out@) =~= scattered(defs@, values(vals@), max_level as u64)->Ok_0);
    }
    Ok(out)
}

/// Reads the `n` values of a page in one of its encodings.
pub fn decode_values_by_encoding(
    payload: &[u8],
    encoding: i32,
    spec: PlainSpec,
    n: usize,
    dict: &[PqValue],
) -> (r: Result<Vec<PqValue>, PqError>)
    ensures
        decodes(r, encoded_values(payload@, encoding, spec, n as nat, values(dict@))),
        r matches Ok(v) ==> v@.len() == n,
{
    if encoding == 0 {
        proof {
            lemma_plain_len(payload@, spec, n as nat);
        }
        decode_plain(payload, spec, n)
    } else if encoding == 2 || encoding == 8 {
        resolve_dict_indices(payload, dict, n)
    } else {
        Err(unsupported("data page encoding (DELTA/BYTE_STREAM_SPLIT): OBJ-2c"))
    }
}

/// How many levels are `max`; nothing if a level is above it.
fn count_present(defs: &Vec<u64>, max: u64) -> (r: Option<usize>)
    ensures
        match r {
            Some(n) => !has_above(defs@, max) && n == occurrences(defs@, max),
            None => has_above(defs@, max),
        },
{
    let mut n: usize = 0;
    let mut i: usize = 0;
    proof {
        assert(defs@.take(0) =~= seq![]);
    }
    while i < defs.len()
        invariant
            i <= defs@.len(),
            n <= i,
            n == occurrences(defs@.take(i as int), max),
            forall|j: int| 0 <= j < i ==> #[trigger] defs@[j] <= max,
        decreases defs@.len() - i,
    {
        proof {
            lemma_occurrences_take(defs@, max, i as int);
        }
        if defs[i] > max {
            return None;
        }
        if defs[i] == max {
            n = n + 1;
        }
        i = i + 1;
    }
    proof {
        assert(defs@.take(i as int) =~= defs@);
    }
    Some(n)
}

/// Reads the `n` values of a flat page of the first kind.
pub fn decode_page(
    payload: &[u8],
    encoding: i32,
    spec: PlainSpec,
    n: usize,
    max_def_level: u32,
    dict: &[PqValue],
) -> (r: Result<Vec<PqValue>, PqError>)
    ensures
        decodes(r, flat_page(payload@, encoding, spec, n as nat, max_def_level, values(dict@))),
        r matches Ok(v) ==> v@.len() == n,
{
    proof {
        reveal(flat_page);
    }
    if max_def_level == 0 {
        return decode_values_by_encoding(payload, encoding, spec, n, dict);
    }
    let (defs, used) = decode_level_v1(payload, bit_width_for_max(max_def_level), n)?;
    let present: usize = match count_present(&defs, max_def_level as u64) {
        Some(p) => p,
        None => {
            return Err(bad("definition level exceeds max"));
        },
    };
    let body = slice_subrange(payload, used, payload.len());
    proof {
        assert(body@ =~= payload@.skip(used as int));
    }
    let vals = decode_values_by_encoding(body, encoding, spec, present, dict)?;
    scatter_nulls(&defs, vals, max_def_level)
}

/// Reads the levels of a flat page of the second kind, if it has levels, and how many values are
/// there.
fn decode_v2_levels(bytes: &[u8], n: usize, nulls: i32, max_def_level: u32) -> (r: Result<
    (Option<Vec<u64>>, usize),
    PqError,
>)
    ensures
        match (r, v2_levels(bytes@, n as nat, nulls as int, max_def_level)) {
            (Ok((Some(d), p)), Ok((Some(e), q))) => d@ == e && p == q && d@.len() == n,
            (Ok((None, p)), Ok((None, q))) => p == q && p == n,
            (Err(x), Err(y)) => x@ == y,
            _ => false,
        },
{
    if max_def_level > 0 {
        let defs = decode_hybrid(bytes, bit_width_for_max(max_def_level), n)?;
        let present: usize = match count_present(&defs, max_def_level as u64) {
            Some(p) => p,
            None => {
                return Err(bad("v2 def-level exceeds max"));
            },
        };
        let nulls: usize = to_length(nulls as i64, "v2 num_nulls range")?;
        if nulls > n || n - nulls != present {
            return Err(bad("v2 num_nulls vs def-levels mismatch"));
        }
        Ok((Some(defs), present))
    } else {
        if bytes.len() != 0 {
            return Err(bad("v2 def_len non-zero for REQUIRED"));
        }
        Ok((None, n))
    }
}

/// The values section of a page of the second kind, which stands for `n` bytes.
fn decode_v2_section(
    codec: Codec,
    compressed: bool,
    s: &[u8],
    n: usize,
    w: FrameWords,
    mismatch: &str,
) -> (r: Result<Vec<u8>, PqError>)
    ensures
        yields(r, v2_section(codec, compressed, s@, n as nat, w, mismatch@)),
{
    if is_uncompressed(codec) || !compressed {
        if s.len() != n {
            return Err(bad(mismatch));
        }
        Ok(copy_bytes(s))
    } else {
        expand(codec, s, n, w)
    }
}

fn is_uncompressed(codec: Codec) -> (r: bool)
    ensures
        r == (codec == Codec::Uncompressed),
{
    match codec {
        Codec::Uncompressed => true,
        _ => false,
    }
}

/// Reads the values of a flat page of the second kind.
pub fn decode_data_page_v2(
    region: &[u8],
    ph: &PageHeader,
    codec: Codec,
    spec: PlainSpec,
    max_def_level: u32,
    dict: &[PqValue],
    max_page_size: usize,
) -> (r: Result<Vec<PqValue>, PqError>)
    ensures
        decodes(
            r,
            flat_page_v2(
                region@,
                *ph,
                codec,
                spec,
                max_def_level,
                values(dict@),
                max_page_size as int,
            ),
        ),
        r matches Ok(v) ==> v@.len() == ph.v2_num_values,
{
    proof {
        reveal(flat_page_v2);
    }
    if ph.v2_rep_len < 0 {
        return Err(bad("v2 rep_len range"));
    }
    if ph.v2_rep_len > 0 {
        return Err(unsupported("REPEATED/nested V2 (repetition levels): OBJ-2c-5"));
    }
    if ph.v2_def_len < 0 {
        return Err(bad("v2 def_len range"));
    }
    if ph.v2_num_values < 0 {
        return Err(bad("v2 num_values range"));
    }
    let def_len: usize = ph.v2_def_len as usize;
    let n: usize = ph.v2_num_values as usize;
    if def_len > region.len() {
        return Err(bad("v2 levels exceed page"));
    }
    let levels = slice_subrange(region, 0, def_len);
    let section = slice_subrange(region, def_len, region.len());
    proof {
        assert(levels@ =~= region@.take(def_len as int));
        assert(section@ =~= region@.skip(def_len as int));
    }
    let (defs, present) = decode_v2_levels(levels, n, ph.v2_num_nulls, max_def_level)?;
    let uncomp: usize = to_length(ph.uncompressed_size as i64, "v2 uncompressed size range")?;
    check_page_size("v2 page uncompressed", uncomp, max_page_size)?;
    if uncomp < def_len {
        return Err(bad("v2 values target underflow"));
    }
    let words = FrameWords {
        decode: "v2 zstd values decode: ",
        size: "v2 zstd values decompressed size ",
        wanted: " != target ",
    };
    let body = decode_v2_section(
        codec,
        ph.v2_is_compressed,
        section,
        uncomp - def_len,
        words,
        "v2 raw values length mismatch",
    )?;
    let vals = decode_values_by_encoding(body.as_slice(), ph.v2_encoding, spec, present, dict)?;
    match defs {
        Some(d) => scatter_nulls(&d, vals, max_def_level),
        None => Ok(vals),
    }
}

/// The width of a level: the fewest bits that hold every number up to `max_level`.
pub fn bit_width_for_max(max_level: u32) -> (r: u32)
    ensures
        r == level_width(max_level),
        is_width(r as nat, max_level),
        r <= 32,
{
    proof {
        lemma_level_width(max_level);
    }
    if max_level == 0 {
        0
    } else {
        high_bit(max_level) + 1
    }
}

/// Checks that no level is above `max`; `kind` names the levels.
fn check_levels(levels: &Vec<u64>, max: u32, kind: &str) -> (r: Result<Vec<u32>, PqError>)
    ensures
        match (r, checked_levels(levels@, max, kind@)) {
            (Ok(v), Ok(w)) => v@ == w && v@.len() == levels@.len(),
            (Err(x), Err(y)) => x@ == y,
            _ => false,
        },
{
    let mut out: Vec<u32> = Vec::new();
    let mut i: usize = 0;
    while i < levels.len()
        invariant
            i <= levels@.len(),
            out@.len() == i,
            forall|j: int| 0 <= j < i ==> #[trigger] out@[j] == levels@[j] as u32,
            first_above(levels@, max, i as int) == first_above(levels@, max, 0),
        decreases levels@.len() - i,
    {
        let l: u64 = levels[i];
        if l > max as u64 {
            let a = decimal_text(l as i128);
            let b = decimal_text(max as i128);
            return Err(
                PqError::Bad(text5(kind, " level ", a.as_str(), " > max ", b.as_str())),
            );
        }
        out.push(l as u32);
        i = i + 1;
    }
    proof {
        assert(out@ =~= levels@.map_values(|l: u64| l as u32));
    }
    Ok(out)
}

/// `n` levels that are all zero.
fn zero_levels(n: usize) -> (r: Vec<u32>)
    ensures
        r@ == no_levels(n as nat),
        r@.len() == n,
{
    let mut out: Vec<u32> = Vec::new();
    let mut i: usize = 0;
    while i < n
        invariant
            i <= n,
            out@ == no_levels(i as nat),
        decreases n - i,
    {
        out.push(0);
        i = i + 1;
        proof {
            assert(out@ =~= no_levels(i as nat));
        }
    }
    out
}

/// Reads the levels at the start of a nested page of the first kind, and how many bytes they take.
fn decode_levels_v1(payload: &[u8], max: u32, n: usize, kind: &str) -> (r: Result<
    (Vec<u32>, usize),
    PqError,
>)
    ensures
        match (r, levels_v1(payload@, max, n as nat, kind@)) {
            (Ok(v), Ok(w)) => v.0@ == w.0 && v.1 == w.1 && v.0@.len() == n && v.1
                <= payload@.len(),
            (Err(x), Err(y)) => x@ == y,
            _ => false,
        },
{
    if max == 0 {
        return Ok((zero_levels(n), 0));
    }
    let (levels, used) = decode_level_v1(payload, bit_width_for_max(max), n)?;
    let out = check_levels(&levels, max, kind)?;
    Ok((out, used))
}

/// Reads the levels in `bytes` of a nested page of the second kind.
fn decode_levels_v2(bytes: &[u8], max: u32, n: usize, kind: &str, surplus: &str) -> (r: Result<
    Vec<u32>,
    PqError,
>)
    ensures
        match (r, levels_v2(bytes@, max, n as nat, kind@, surplus@)) {
            (Ok(v), Ok(w)) => v@ == w && v@.len() == n,
            (Err(x), Err(y)) => x@ == y,
            _ => false,
        },
{
    if max == 0 {
        if bytes.len() != 0 {
            return Err(bad(surplus));
        }
        return Ok(zero_levels(n));
    }
    let levels = decode_hybrid(bytes, bit_width_for_max(max), n)?;
    check_levels(&levels, max, kind)
}

/// How many levels are `max`.
fn count_at_max(levels: &Vec<u32>, max: u32) -> (r: usize)
    ensures
        r == at_max(levels@, max),
{
    let mut n: usize = 0;
    let mut i: usize = 0;
    proof {
        assert(levels@.take(0) =~= seq![]);
    }
    while i < levels.len()
        invariant
            i <= levels@.len(),
            n <= i,
            n == at_max(levels@.take(i as int), max),
        decreases levels@.len() - i,
    {
        proof {
            assert(levels@.take(i + 1).drop_last() =~= levels@.take(i as int));
        }
        if levels[i] == max {
            n = n + 1;
        }
        i = i + 1;
    }
    proof {
        assert(levels@.take(i as int) =~= levels@);
    }
    n
}

/// Whether the levels and the values are what `s` says.
pub open spec fn gives_levels(
    r: Result<(Vec<u32>, Vec<u32>, Vec<PqValue>), PqError>,
    s: Result<Levels, PqErrorView>,
) -> bool {
    match (r, s) {
        (Ok(v), Ok(w)) => v.0@ == w.0 && v.1@ == w.1 && values(v.2@) == w.2,
        (Err(x), Err(y)) => x@ == y,
        _ => false,
    }
}

/// Reads a nested page of the first kind: the repetition levels, the definition levels, and the
/// values that are there.
pub fn decode_page_v1_nested(
    payload: &[u8],
    encoding: i32,
    spec: PlainSpec,
    n: usize,
    max_rep_level: u32,
    max_def_level: u32,
    dict: &[PqValue],
) -> (r: Result<(Vec<u32>, Vec<u32>, Vec<PqValue>), PqError>)
    ensures
        gives_levels(
            r,
            nested_page(
                payload@,
                encoding,
                spec,
                n as nat,
                max_rep_level,
                max_def_level,
                values(dict@),
            ),
        ),
        r matches Ok(v) ==> v.0@.len() == n && v.1@.len() == n && v.2@.len() == at_max(
            v.1@,
            max_def_level,
        ),
{
    proof {
        reveal(nested_page);
    }
    let (rep, p) = decode_levels_v1(payload, max_rep_level, n, "nested v1 rep")?;
    let after_rep = slice_subrange(payload, p, payload.len());
    proof {
        assert(after_rep@ =~= payload@.skip(p as int));
    }
    let (def, q) = decode_levels_v1(after_rep, max_def_level, n, "nested v1 def")?;
    let body = slice_subrange(after_rep, q, after_rep.len());
    proof {
        assert(body@ =~= after_rep@.skip(q as int));
    }
    let present: usize = count_at_max(&def, max_def_level);
    let vals = decode_values_by_encoding(body, encoding, spec, present, dict)?;
    Ok((rep, def, vals))
}

/// Reads a nested page of the second kind: the repetition levels, the definition levels, and the
/// values that are there.
pub fn decode_data_page_v2_nested(
    payload: &[u8],
    encoding: i32,
    spec: PlainSpec,
    n: usize,
    max_rep_level: u32,
    max_def_level: u32,
    rep_levels_byte_length: u32,
    def_levels_byte_length: u32,
    is_compressed: bool,
    codec: Codec,
    uncompressed_page_size: u32,
    dict: &[PqValue],
) -> (r: Result<(Vec<u32>, Vec<u32>, Vec<PqValue>), PqError>)
    ensures
        gives_levels(
            r,
            nested_page_v2(
                payload@,
                encoding,
                spec,
                n as nat,
                max_rep_level,
                max_def_level,
                rep_levels_byte_length as int,
                def_levels_byte_length as int,
                is_compressed,
                codec,
                uncompressed_page_size as int,
                values(dict@),
            ),
        ),
        r matches Ok(v) ==> v.0@.len() == n && v.1@.len() == n && v.2@.len() == at_max(
            v.1@,
            max_def_level,
        ),
{
    proof {
        reveal(nested_page_v2);
    }
    let rep_len: usize = rep_levels_byte_length as usize;
    let end: usize = match rep_len.checked_add(def_levels_byte_length as usize) {
        Some(e) => e,
        None => {
            return Err(bad("nested v2 level len ovf"));
        },
    };
    if end > payload.len() {
        return Err(bad("nested v2 level sections exceed page"));
    }
    let rep_bytes = slice_subrange(payload, 0, rep_len);
    let def_bytes = slice_subrange(payload, rep_len, end);
    let section = slice_subrange(payload, end, payload.len());
    proof {
        assert(rep_bytes@ =~= payload@.take(rep_len as int));
        assert(section@ =~= payload@.skip(end as int));
    }
    let rep = decode_levels_v2(
        rep_bytes,
        max_rep_level,
        n,
        "nested v2 rep",
        "nested v2 rep_len non-zero for max_rep_level=0",
    )?;
    let def = decode_levels_v2(
        def_bytes,
        max_def_level,
        n,
        "nested v2 def",
        "nested v2 def_len non-zero for max_def_level=0",
    )?;
    let uncomp: usize = uncompressed_page_size as usize;
    if uncomp < end {
        return Err(bad("nested v2 values target underflow"));
    }
    let words = FrameWords {
        decode: "nested v2 zstd values decode: ",
        size: "nested v2 zstd values decompressed size ",
        wanted: " != target ",
    };
    let body = decode_v2_section(
        codec,
        is_compressed,
        section,
        uncomp - end,
        words,
        "nested v2 raw values length mismatch",
    )?;
    let present: usize = count_at_max(&def, max_def_level);
    let vals = decode_values_by_encoding(body.as_slice(), encoding, spec, present, dict)?;
    Ok((rep, def, vals))
}

} // verus!
