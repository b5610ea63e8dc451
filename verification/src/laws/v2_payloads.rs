//! Pages of the second kind: levels without a length before them, then a section of values that alone
//! is compressed.
use vstd::arithmetic::power2::pow2;
use vstd::prelude::*;

use crate::chunk::{flat_page_at, nested_page_at, nested_v2_of};
use crate::codec::{expanded, FrameWords};
use crate::error::PqErrorView;
use crate::laws::levels::{law_hybrid, run_ok, runs_form, runs_values, Run};
use crate::laws::pages::page_form;
use crate::laws::payloads::{lemma_none_above, level_values, leveled_values, optional_values};
use crate::laws::stored::{ending, law_v2_page, v2_header, v2_page, V2};
use crate::meta::{blank_header, Codec, ColumnChunkView};
use crate::page::{
    at_max,     encoded_values, flat_page_v2, has_above, level_width, lemma_level_width, nested_page_v2,
    nested_v2_words, occurrences, v2_words,
};
use crate::plain::{plain_values, PlainSpec};
use crate::value::PqV;

verus! {

/// A level takes as many bits as the largest level has, and no more.
pub proof fn law_level_width(max: u32)
    ensures
        max < pow2(level_width(max)),
        forall|w: nat| max < #[trigger] pow2(w) ==> level_width(max) <= w,
{
    lemma_level_width(max);
    let l = level_width(max);
    assert forall|w: nat| max < #[trigger] pow2(w) implies l <= w by {
        if w < l {
            if w < l - 1 {
                vstd::arithmetic::power2::lemma_pow2_strictly_increases(w, (l - 1) as nat);
            }
        }
    }
}

/// The encoding 0 is the plain one, and 2 and 8 are indices into the dictionary: a byte for the width
/// of an index, then the indices.
pub proof fn law_encodings(
    bytes: Seq<u8>,
    s: Seq<Run>,
    w: u8,
    spec: PlainSpec,
    n: nat,
    dict: Seq<PqV>,
)
    ensures
        encoded_values(bytes, 0, spec, n, dict) == plain_values(bytes, spec, n),
        w <= 64 && (forall|i: int| 0 <= i < s.len() ==> run_ok(#[trigger] s[i], w as nat)) && n
            <= runs_values(s).len() && runs_form(s, w as nat).len() <= usize::MAX && (forall|i: int|

            0 <= i < n ==> (#[trigger] runs_values(s)[i]) < dict.len()) ==> ({
            let want = Seq::new(n, |i: int| dict[runs_values(s)[i] as int]);
            let page = seq![w] + runs_form(s, w as nat);
            &&& encoded_values(page, 2, spec, n, dict) == Ok::<Seq<PqV>, PqErrorView>(want)
            &&& encoded_values(page, 8, spec, n, dict) == Ok::<Seq<PqV>, PqErrorView>(want)
        }),
        forall|encoding: i32|
            encoding != 0 && encoding != 2 && encoding != 8 ==> (#[trigger] encoded_values(
                bytes,
                encoding,
                spec,
                n,
                dict,
            )) is Err,
{
    if w <= 64 && (forall|i: int| 0 <= i < s.len() ==> run_ok(#[trigger] s[i], w as nat)) && n
        <= runs_values(s).len() && runs_form(s, w as nat).len() <= usize::MAX && (forall|i: int|
        0 <= i < n ==> (#[trigger] runs_values(s)[i]) < dict.len()) {
        crate::laws::values::law_dictionary(s, w, n, dict);
    }
}

/// As many values are there as levels are the largest.
pub proof fn law_present(levels: Seq<u32>, defs: Seq<u64>, max: u32)
    ensures
        at_max(levels, max) == levels.filter(|l: u32| l == max).len(),
        occurrences(defs, max as u64) == defs.filter(|l: u64| l == max).len(),
    decreases levels.len() + defs.len(),
{
    reveal(Seq::filter);
    if levels.len() > 0 {
        law_present(levels.drop_last(), defs, max);
    } else if defs.len() > 0 {
        law_present(levels, defs.drop_last(), max);
    }
    if levels.len() > 0 && defs.len() > 0 {
        law_present(levels, defs.drop_last(), max);
    }
}

/// A page of the second kind is compressed unless its header says that it is not.
pub proof fn law_compressed_by_default()
    ensures
        blank_header().v2_is_compressed,
{
}

/// Levels up to `max` in a page of the second kind: none are written where `max` is zero.
pub open spec fn v2_level_form(s: Seq<Run>, max: u32) -> Seq<u8> {
    if max == 0 {
        seq![]
    } else {
        runs_form(s, level_width(max))
    }
}

/// Whether the runs hold `n` levels up to `max`.
pub open spec fn v2_levels_ok(s: Seq<Run>, max: u32, n: nat) -> bool {
    max > 0 ==> {
        &&& forall|i: int| 0 <= i < s.len() ==> run_ok(#[trigger] s[i], level_width(max))
        &&& n <= runs_values(s).len()
        &&& forall|i: int| 0 <= i < n ==> (#[trigger] runs_values(s)[i]) <= max
    }
}

/// How many levels are not `max`.
pub open spec fn nulls_in(defs: Seq<u64>, max: u64) -> nat
    decreases defs.len(),
{
    if defs.len() == 0 {
        0
    } else {
        nulls_in(defs.drop_last(), max) + if defs.last() == max {
            0nat
        } else {
            1nat
        }
    }
}

pub(crate) proof fn lemma_nulls(defs: Seq<u64>, max: u64)
    ensures
        nulls_in(defs, max) + occurrences(defs, max) == defs.len(),
    decreases defs.len(),
{
    if defs.len() > 0 {
        lemma_nulls(defs.drop_last(), max);
    }
}

/// Whether a section stands for the values `body`: it is the body itself where the column or the page
/// is not compressed, and else it expands to the body.
pub open spec fn section_holds(
    codec: Codec,
    compressed: bool,
    section: Seq<u8>,
    body: Seq<u8>,
    w: FrameWords,
) -> bool {
    if codec == Codec::Uncompressed || !compressed {
        section == body
    } else {
        expanded(codec, section, body.len(), w) == Ok::<Seq<u8>, PqErrorView>(body)
    }
}

/// Whether the header tells the sizes: the levels are counted as they stand, the values as they are
/// before compression.
pub open spec fn v2_sized(
    v: V2,
    uncompressed: i32,
    rep: Seq<u8>,
    def: Seq<u8>,
    body: Seq<u8>,
    cap: int,
) -> bool {
    &&& v.rep_len == rep.len()
    &&& v.def_len == def.len()
    &&& uncompressed == rep.len() + def.len() + body.len()
    &&& uncompressed <= cap
}

proof fn lemma_width(max: u32)
    ensures
        level_width(max) <= 32,
{
    vstd::arithmetic::power2::lemma2_to64();
    law_level_width(max);
    assert(max < pow2(32));
}

/// A page of the second kind of a flat column gives its values. Where the column may be absent, they
/// come out in the slots whose level is the largest, and the header tells how many slots are null.
pub proof fn law_flat_v2_payload(
    s: Seq<Run>,
    max_def: u32,
    v: V2,
    uncompressed: i32,
    section: Seq<u8>,
    body: Seq<u8>,
    codec: Codec,
    spec: PlainSpec,
    dict: Seq<PqV>,
    cap: int,
)
    requires
        0 <= v.num_values,
        v2_levels_ok(s, max_def, v.num_values as nat),
        v2_sized(v, uncompressed, seq![], v2_level_form(s, max_def), body, cap),
        max_def > 0 ==> v.num_nulls == nulls_in(
            runs_values(s).take(v.num_values as int),
            max_def as u64,
        ),
        section_holds(codec, v.is_compressed, section, body, v2_words()),
    ensures
        flat_page_v2(
            v2_level_form(s, max_def) + section,
            v2_header(v, uncompressed, v2_level_form(s, max_def) + section),
            codec,
            spec,
            max_def,
            dict,
            cap,
        ) == if max_def == 0 {
            encoded_values(body, v.encoding, spec, v.num_values as nat, dict)
        } else {
            optional_values(
                runs_values(s).take(v.num_values as int),
                max_def,
                body,
                v.encoding,
                spec,
                dict,
            )
        },
{
    reveal(flat_page_v2);
    let f = v2_level_form(s, max_def);
    let region = f + section;
    let n = v.num_values as nat;
    assert(region.take(f.len() as int) =~= f);
    assert(region.skip(f.len() as int) =~= section);
    if max_def > 0 {
        let defs = runs_values(s).take(n as int);
        lemma_width(max_def);
        law_hybrid(s, level_width(max_def), n);
        lemma_nulls(defs, max_def as u64);
        assert(!has_above(defs, max_def as u64)) by {
            assert forall|i: int| 0 <= i < defs.len() implies #[trigger] defs[i] <= max_def by {
                assert(defs[i] == runs_values(s)[i]);
            }
        }
    }
}

proof fn lemma_v2_levels(s: Seq<Run>, max: u32, n: nat, kind: Seq<char>, surplus: Seq<char>)
    requires
        v2_levels_ok(s, max, n),
        v2_level_form(s, max).len() <= usize::MAX,
    ensures
        crate::page::levels_v2(v2_level_form(s, max), max, n, kind, surplus) == Ok::<
            Seq<u32>,
            PqErrorView,
        >(level_values(s, max, n)),
{
    if max > 0 {
        let levels = runs_values(s).take(n as int);
        lemma_width(max);
        law_hybrid(s, level_width(max), n);
        assert forall|j: int| 0 <= j < levels.len() implies (#[trigger] levels[j]) <= max by {
            assert(levels[j] == runs_values(s)[j]);
        }
        lemma_none_above(levels, max, 0);
    }
}

/// A page of the second kind of a nested column gives its repetition levels, its definition levels
/// and the values that are there.
pub proof fn law_nested_v2_payload(
    r: Seq<Run>,
    d: Seq<Run>,
    max_rep: u32,
    max_def: u32,
    v: V2,
    uncompressed: i32,
    section: Seq<u8>,
    body: Seq<u8>,
    cc: ColumnChunkView,
    spec: PlainSpec,
    dict: Seq<PqV>,
    cap: int,
)
    requires
        0 <= v.num_values,
        v2_levels_ok(r, max_rep, v.num_values as nat),
        v2_levels_ok(d, max_def, v.num_values as nat),
        v2_sized(
            v,
            uncompressed,
            v2_level_form(r, max_rep),
            v2_level_form(d, max_def),
            body,
            cap,
        ),
        section_holds(cc.codec, v.is_compressed, section, body, nested_v2_words()),
    ensures
        ({
            let region = v2_level_form(r, max_rep) + v2_level_form(d, max_def) + section;
            nested_v2_of(
                region,
                v2_header(v, uncompressed, region),
                cc,
                spec,
                max_def,
                max_rep,
                dict,
                cap,
            ) == leveled_values(
                level_values(r, max_rep, v.num_values as nat),
                level_values(d, max_def, v.num_values as nat),
                max_def,
                body,
                v.encoding,
                spec,
                dict,
            )
        }),
{
    reveal(nested_page_v2);
    let a = v2_level_form(r, max_rep);
    let b = v2_level_form(d, max_def);
    let region = a + b + section;
    let n = v.num_values as nat;
    let end = (a.len() + b.len()) as int;
    assert(region.take(a.len() as int) =~= a);
    assert(region.subrange(a.len() as int, end) =~= b);
    assert(region.skip(end) =~= section);
    lemma_v2_levels(
        r,
        max_rep,
        n,
        "nested v2 rep"@,
        "nested v2 rep_len non-zero for max_rep_level=0"@,
    );
    lemma_v2_levels(
        d,
        max_def,
        n,
        "nested v2 def"@,
        "nested v2 def_len non-zero for max_def_level=0"@,
    );
}

/// What a stored page of the second kind gives, from its first byte on, in a flat column and in a
/// nested one.
pub proof fn law_v2_values(
    r: Seq<Run>,
    d: Seq<Run>,
    max_rep: u32,
    max_def: u32,
    v: V2,
    uncompressed: i32,
    section: Seq<u8>,
    body: Seq<u8>,
    cc: ColumnChunkView,
    spec: PlainSpec,
    dict: Seq<PqV>,
    cap: int,
)
    requires
        0 <= v.num_values,
        v2_levels_ok(r, max_rep, v.num_values as nat),
        v2_levels_ok(d, max_def, v.num_values as nat),
        v2_sized(
            v,
            uncompressed,
            v2_level_form(r, max_rep),
            v2_level_form(d, max_def),
            body,
            cap,
        ),
        max_def > 0 ==> v.num_nulls == nulls_in(
            runs_values(d).take(v.num_values as int),
            max_def as u64,
        ),
        section_holds(cc.codec, v.is_compressed, section, body, v2_words()),
        section_holds(cc.codec, v.is_compressed, section, body, nested_v2_words()),
        ({
            let region = v2_level_form(r, max_rep) + v2_level_form(d, max_def) + section;
            &&& region.len() <= i32::MAX
            &&& region.len() <= cap
            &&& page_form(v2_page(v, uncompressed, region)).len() <= usize::MAX
        }),
    ensures
        ({
            let region = v2_level_form(r, max_rep) + v2_level_form(d, max_def) + section;
            let file = page_form(v2_page(v, uncompressed, region));
            let n = v.num_values as nat;
            &&& max_rep == 0 ==> flat_page_at(file, 0, cc, spec, max_def, dict, cap) == ending(
                if max_def == 0 {
                    encoded_values(body, v.encoding, spec, n, dict)
                } else {
                    optional_values(
                        runs_values(d).take(n as int),
                        max_def,
                        body,
                        v.encoding,
                        spec,
                        dict,
                    )
                },
                file.len() as int,
            )
            &&& nested_page_at(file, 0, cc, spec, max_def, max_rep, dict, cap) == ending(
                leveled_values(
                    level_values(r, max_rep, n),
                    level_values(d, max_def, n),
                    max_def,
                    body,
                    v.encoding,
                    spec,
                    dict,
                ),
                file.len() as int,
            )
        }),
{
    let a = v2_level_form(r, max_rep);
    let b = v2_level_form(d, max_def);
    let region = a + b + section;
    law_v2_page(v, uncompressed, region, cc, spec, max_def, max_rep, dict, cap);
    law_nested_v2_payload(
        r,
        d,
        max_rep,
        max_def,
        v,
        uncompressed,
        section,
        body,
        cc,
        spec,
        dict,
        cap,
    );
    if max_rep == 0 {
        assert(region =~= b + section);
        law_flat_v2_payload(
            d,
            max_def,
            v,
            uncompressed,
            section,
            body,
            cc.codec,
            spec,
            dict,
            cap,
        );
    }
}

} // verus!
