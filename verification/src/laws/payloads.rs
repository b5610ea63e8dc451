//! Payloads: levels, then the values that are there.
use vstd::prelude::*;

use crate::error::PqErrorView;
use crate::laws::levels::{law_prefixed_levels, run_ok, runs_form, runs_values, Run};
use crate::laws::numbers::{law_le, le_form};
use crate::page::{
    at_max, encoded_values, first_above, flat_page, has_above, level_width, levels_v1, nested_page,
    occurrences, scattered, Levels,
};
use crate::plain::{Plain, PlainSpec};
use crate::value::PqV;

verus! {

/// Levels of `w` bits with the length of their runs before them.
pub open spec fn prefixed_form(s: Seq<Run>, w: nat) -> Seq<u8> {
    le_form(runs_form(s, w).len(), 4) + runs_form(s, w)
}

/// Whether the runs hold `n` levels of `w` bits, and their length can be written.
pub open spec fn runs_fit(s: Seq<Run>, w: nat, n: nat) -> bool {
    &&& w <= 64
    &&& forall|i: int| 0 <= i < s.len() ==> run_ok(#[trigger] s[i], w)
    &&& n <= runs_values(s).len()
    &&& runs_form(s, w).len() <= u32::MAX
    &&& 4 + runs_form(s, w).len() <= usize::MAX
}

/// The levels that runs hold, up to `max`: none are written where `max` is zero.
pub open spec fn level_form(s: Seq<Run>, max: u32) -> Seq<u8> {
    if max == 0 {
        seq![]
    } else {
        prefixed_form(s, level_width(max))
    }
}

/// The first `n` levels that runs hold, or zeros where `max` is zero.
pub open spec fn level_values(s: Seq<Run>, max: u32, n: nat) -> Seq<u32> {
    if max == 0 {
        Seq::new(n, |i: int| 0u32)
    } else {
        runs_values(s).take(n as int).map_values(|l: u64| l as u32)
    }
}

/// Whether the runs hold `n` levels up to `max`.
pub open spec fn levels_ok(s: Seq<Run>, max: u32, n: nat) -> bool {
    max > 0 ==> runs_fit(s, level_width(max), n) && forall|i: int|
        0 <= i < n ==> (#[trigger] runs_values(s)[i]) <= max
}

/// The values of a page of a column that may be absent: those that are there, in the slots whose
/// level is the largest.
pub open spec fn optional_values(
    defs: Seq<u64>,
    max_def: u32,
    bytes: Seq<u8>,
    encoding: i32,
    spec: PlainSpec,
    dict: Seq<PqV>,
) -> Plain {
    match encoded_values(bytes, encoding, spec, occurrences(defs, max_def as u64), dict) {
        Err(e) => Err(e),
        Ok(vals) => scattered(defs, vals, max_def as u64),
    }
}

/// The payload of a column that is always there is its values. That of another is its levels and the
/// values that are there, which come out in the slots whose level is the largest.
pub proof fn law_flat_payload(
    s: Seq<Run>,
    max_def: u32,
    n: nat,
    bytes: Seq<u8>,
    encoding: i32,
    spec: PlainSpec,
    dict: Seq<PqV>,
)
    requires
        levels_ok(s, max_def, n),
    ensures
        flat_page(level_form(s, max_def) + bytes, encoding, spec, n, max_def, dict) == if max_def
            == 0 {
            encoded_values(bytes, encoding, spec, n, dict)
        } else {
            optional_values(
                runs_values(s).take(n as int),
                max_def,
                bytes,
                encoding,
                spec,
                dict,
            )
        },
{
    reveal(flat_page);
    let payload = level_form(s, max_def) + bytes;
    if max_def == 0 {
        assert(payload =~= bytes);
    } else {
        let w = level_width(max_def);
        let defs = runs_values(s).take(n as int);
        law_prefixed_levels(s, w, n, bytes);
        law_le(runs_form(s, w).len(), 4);
        assert(payload =~= le_form(runs_form(s, w).len(), 4) + runs_form(s, w) + bytes);
        assert(payload.skip((4 + runs_form(s, w).len()) as int) =~= bytes);
        assert(!has_above(defs, max_def as u64)) by {
            assert forall|i: int| 0 <= i < defs.len() implies #[trigger] defs[i] <= max_def by {
                assert(defs[i] == runs_values(s)[i]);
            }
        }
    }
}

pub(crate) proof fn lemma_none_above(levels: Seq<u64>, max: u32, i: int)
    requires
        0 <= i,
        forall|j: int| 0 <= j < levels.len() ==> (#[trigger] levels[j]) <= max,
    ensures
        first_above(levels, max, i) is None,
    decreases levels.len() - i,
{
    if i < levels.len() {
        lemma_none_above(levels, max, i + 1);
    }
}

proof fn lemma_levels(s: Seq<Run>, max: u32, n: nat, after: Seq<u8>, kind: Seq<char>)
    requires
        levels_ok(s, max, n),
    ensures
        levels_v1(level_form(s, max) + after, max, n, kind) == Ok::<(Seq<u32>, int), PqErrorView>(
            (level_values(s, max, n), level_form(s, max).len() as int),
        ),
        (level_form(s, max) + after).skip(level_form(s, max).len() as int) == after,
{
    let payload = level_form(s, max) + after;
    assert(payload.skip(level_form(s, max).len() as int) =~= after);
    if max > 0 {
        let w = level_width(max);
        let levels = runs_values(s).take(n as int);
        law_prefixed_levels(s, w, n, after);
        law_le(runs_form(s, w).len(), 4);
        assert(payload =~= le_form(runs_form(s, w).len(), 4) + runs_form(s, w) + after);
        assert forall|j: int| 0 <= j < levels.len() implies (#[trigger] levels[j]) <= max by {
            assert(levels[j] == runs_values(s)[j]);
        }
        lemma_none_above(levels, max, 0);
    }
}

/// The levels and the values of a page of a nested column.
pub open spec fn leveled_values(
    rep: Seq<u32>,
    def: Seq<u32>,
    max_def: u32,
    bytes: Seq<u8>,
    encoding: i32,
    spec: PlainSpec,
    dict: Seq<PqV>,
) -> Result<Levels, PqErrorView> {
    match encoded_values(bytes, encoding, spec, at_max(def, max_def), dict) {
        Err(e) => Err(e),
        Ok(vals) => Ok((rep, def, vals)),
    }
}

/// The payload of a nested column is its repetition levels, its definition levels and the values
/// that are there: they come out as they went in.
pub proof fn law_nested_payload(
    r: Seq<Run>,
    d: Seq<Run>,
    max_rep: u32,
    max_def: u32,
    n: nat,
    bytes: Seq<u8>,
    encoding: i32,
    spec: PlainSpec,
    dict: Seq<PqV>,
)
    requires
        levels_ok(r, max_rep, n),
        levels_ok(d, max_def, n),
    ensures
        nested_page(
            level_form(r, max_rep) + (level_form(d, max_def) + bytes),
            encoding,
            spec,
            n,
            max_rep,
            max_def,
            dict,
        ) == leveled_values(
            level_values(r, max_rep, n),
            level_values(d, max_def, n),
            max_def,
            bytes,
            encoding,
            spec,
            dict,
        ),
{
    reveal(nested_page);
    lemma_levels(r, max_rep, n, level_form(d, max_def) + bytes, "nested v1 rep"@);
    lemma_levels(d, max_def, n, bytes, "nested v1 def"@);
}

} // verus!
