//! Flat columns in pages of the second kind.
use vstd::prelude::*;

use crate::chunk::encoding_known;
use crate::codec::codec_known;
use crate::error::PqErrorView;
use crate::laws::levels::{runs_values, Run};
use crate::laws::pages::{dictionary_of, page_form, page_ok, pages_values, Page};
use crate::laws::payloads::optional_values;
use crate::laws::stored::{law_v2_page, v2_page, V2};
use crate::laws::tables::{
    chunk_view, max_def_of, one_page_part, part_ok, spec_of, Column,
};
use crate::laws::v2_payloads::{
    law_v2_values, nulls_in, section_holds, v2_level_form, v2_levels_ok, v2_sized,
};
use crate::meta::{Codec, Encoding};
use crate::page::{encoded_values, nested_v2_words, v2_words};
use crate::plain::Plain;
use crate::value::PqV;

verus! {

/// The values that a page of a flat column holds: in the slots whose level is the largest, where the
/// column has levels.
pub open spec fn page_values(
    col: Column,
    d: Seq<Run>,
    n: nat,
    body: Seq<u8>,
    encoding: i32,
    dict: Seq<PqV>,
) -> Plain {
    if max_def_of(col) == 0 {
        encoded_values(body, encoding, spec_of(col), n, dict)
    } else {
        optional_values(
            runs_values(d).take(n as int),
            max_def_of(col),
            body,
            encoding,
            spec_of(col),
            dict,
        )
    }
}

/// A page of the second kind stores a part of a flat column, whether its section is compressed or not
/// and whether the column may be absent or not.
pub proof fn law_one_v2_page(
    col: Column,
    codec: i32,
    encodings: Seq<i32>,
    dict_page: Option<Page>,
    v: V2,
    d: Seq<Run>,
    uncompressed: i32,
    section: Seq<u8>,
    body: Seq<u8>,
    dict: Seq<PqV>,
    values: Seq<PqV>,
    cap: int,
)
    requires
        codec_known(Codec::of(codec)),
        forall|i: int|
            0 <= i < encodings.len() ==> encoding_known(Encoding::of(#[trigger] encodings[i])),
        dict_page matches Some(p) ==> page_ok(p),
        v.encoding == 2 || v.encoding == 8 ==> dict_page is Some,
        0 <= v.num_values,
        v2_levels_ok(d, max_def_of(col), v.num_values as nat),
        v2_sized(v, uncompressed, seq![], v2_level_form(d, max_def_of(col)), body, cap),
        max_def_of(col) > 0 ==> v.num_nulls == nulls_in(
            runs_values(d).take(v.num_values as int),
            max_def_of(col) as u64,
        ),
        section_holds(Codec::of(codec), v.is_compressed, section, body, v2_words()),
        section_holds(Codec::of(codec), v.is_compressed, section, body, nested_v2_words()),
        ({
            let region = v2_level_form(d, max_def_of(col)) + section;
            &&& region.len() <= i32::MAX
            &&& region.len() <= cap
            &&& page_form(v2_page(v, uncompressed, region)).len() <= usize::MAX
        }),
        page_values(col, d, v.num_values as nat, body, v.encoding, dict) == Ok::<
            Seq<PqV>,
            PqErrorView,
        >(values),
        values.len() <= usize::MAX,
        values.len() <= i64::MAX,
        ({
            let page = v2_page(v, uncompressed, v2_level_form(d, max_def_of(col)) + section);
            let part = one_page_part(codec, encodings, dict_page, page, values);
            dictionary_of(dict_page, chunk_view(col, part, 0), spec_of(col), cap) == Ok::<
                Seq<PqV>,
                PqErrorView,
            >(dict)
        }),
    ensures
        ({
            let page = v2_page(v, uncompressed, v2_level_form(d, max_def_of(col)) + section);
            part_ok(col, one_page_part(codec, encodings, dict_page, page, values), cap)
        }),
{
    let max = max_def_of(col);
    let region = v2_level_form(d, max) + section;
    let page = v2_page(v, uncompressed, region);
    let part = one_page_part(codec, encodings, dict_page, page, values);
    let cc = chunk_view(col, part, 0);
    assert(v2_level_form(seq![], 0) + v2_level_form(d, max) + section =~= region);
    law_v2_page(v, uncompressed, region, cc, spec_of(col), max, 0, dict, cap);
    law_v2_values(
        seq![],
        d,
        0,
        max,
        v,
        uncompressed,
        section,
        body,
        cc,
        spec_of(col),
        dict,
        cap,
    );
    let pages = part.pages;
    assert(pages[0] == page);
    assert(pages_values(pages, cc, spec_of(col), max, dict, cap, 0) == Ok::<
        Seq<PqV>,
        PqErrorView,
    >(seq![]));
    assert(seq![] + values =~= values);
    assert(pages_values(pages, cc, spec_of(col), max, dict, cap, 1) == Ok::<
        Seq<PqV>,
        PqErrorView,
    >(values));
}

} // verus!
