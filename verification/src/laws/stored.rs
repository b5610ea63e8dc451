//! Pages as a writer stores them: what their headers say, and what they give.
use vstd::prelude::*;

use crate::chunk::{
    dictionary, flat_page_at, header_at, nested_page_at, nested_v2_of, v1_payload, v2_region,
    SizeWords,
};
use crate::codec::expanded;
use crate::error::PqErrorView;
use crate::laws::fields::{datum_ok, Datum};
use crate::laws::headers::{
    data_after, data_fields_ok, dict_after, dict_fields_ok, header_after, header_takes, v2_after,
    v2_fields_ok,
};
use crate::laws::pages::{
    header_len, header_of, lemma_alone, lemma_header_at, page_form, page_ok, with_dictionary, Page,
};
use crate::meta::{blank_header, ColumnChunkView, PageHeader};
use crate::page::{flat_page, flat_page_v2, nested_page, page_words};
use crate::plain::{plain_values, PlainSpec};
use crate::value::PqV;

verus! {

/// A data page of the first kind: `n` values in the encoding, in `uncompressed` bytes before
/// compression.
pub open spec fn v1_page(n: i32, encoding: i32, uncompressed: i32, section: Seq<u8>) -> Page {
    let inner = seq![
        (1i16, Datum::I32(n)),
        (2i16, Datum::I32(encoding)),
        (3i16, Datum::I32(3)),
        (4i16, Datum::I32(3)),
    ];
    Page {
        header: seq![
            (1i16, Datum::I32(0)),
            (2i16, Datum::I32(uncompressed)),
            (3i16, Datum::I32(section.len() as i32)),
            (5i16, Datum::Struct(inner)),
        ],
        section,
    }
}

/// A dictionary page of `n` values.
pub open spec fn dict_page(n: i32, encoding: i32, uncompressed: i32, section: Seq<u8>) -> Page {
    let inner = seq![(1i16, Datum::I32(n)), (2i16, Datum::I32(encoding))];
    Page {
        header: seq![
            (1i16, Datum::I32(2)),
            (2i16, Datum::I32(uncompressed)),
            (3i16, Datum::I32(section.len() as i32)),
            (7i16, Datum::Struct(inner)),
        ],
        section,
    }
}

/// What the header of a data page of the second kind says of its levels and values.
pub struct V2 {
    pub num_values: i32,
    pub num_nulls: i32,
    pub num_rows: i32,
    pub encoding: i32,
    pub def_len: i32,
    pub rep_len: i32,
    pub is_compressed: bool,
}

/// A data page of the second kind.
pub open spec fn v2_page(v: V2, uncompressed: i32, section: Seq<u8>) -> Page {
    let inner = seq![
        (1i16, Datum::I32(v.num_values)),
        (2i16, Datum::I32(v.num_nulls)),
        (3i16, Datum::I32(v.num_rows)),
        (4i16, Datum::I32(v.encoding)),
        (5i16, Datum::I32(v.def_len)),
        (6i16, Datum::I32(v.rep_len)),
        (7i16, Datum::Truth(v.is_compressed)),
    ];
    Page {
        header: seq![
            (1i16, Datum::I32(3)),
            (2i16, Datum::I32(uncompressed)),
            (3i16, Datum::I32(section.len() as i32)),
            (8i16, Datum::Struct(inner)),
        ],
        section,
    }
}

proof fn lemma_v1_header(n: i32, encoding: i32, uncompressed: i32, section: Seq<u8>)
    requires
        section.len() <= i32::MAX,
    ensures
        page_ok(v1_page(n, encoding, uncompressed, section)),
        header_of(v1_page(n, encoding, uncompressed, section)) == (PageHeader {
            page_type: 0,
            uncompressed_size: uncompressed,
            compressed_size: section.len() as i32,
            dp_num_values: n,
            dp_encoding: encoding,
            ..blank_header()
        }),
{
    let fields = v1_page(n, encoding, uncompressed, section).header;
    let inner = fields[3].1->Struct_0;
    assert(data_fields_ok(inner));
    assert(datum_ok(fields[3].1));
    assert forall|i: int| 0 <= i < fields.len() implies header_takes(
        (#[trigger] fields[i]).0,
        fields[i].1,
    ) && datum_ok(fields[i].1) by {}
    reveal_with_fuel(header_after, 5);
    reveal_with_fuel(data_after, 5);
}

proof fn lemma_dict_header(n: i32, encoding: i32, uncompressed: i32, section: Seq<u8>)
    requires
        section.len() <= i32::MAX,
    ensures
        page_ok(dict_page(n, encoding, uncompressed, section)),
        header_of(dict_page(n, encoding, uncompressed, section)) == (PageHeader {
            page_type: 2,
            uncompressed_size: uncompressed,
            compressed_size: section.len() as i32,
            dict_num_values: n,
            dict_encoding: encoding,
            ..blank_header()
        }),
{
    let fields = dict_page(n, encoding, uncompressed, section).header;
    let inner = fields[3].1->Struct_0;
    assert(dict_fields_ok(inner));
    assert(datum_ok(fields[3].1));
    assert forall|i: int| 0 <= i < fields.len() implies header_takes(
        (#[trigger] fields[i]).0,
        fields[i].1,
    ) && datum_ok(fields[i].1) by {}
    reveal_with_fuel(header_after, 5);
    reveal_with_fuel(dict_after, 3);
}

/// What the header of a data page of the second kind says.
pub open spec fn v2_header(v: V2, uncompressed: i32, section: Seq<u8>) -> PageHeader {
    PageHeader {
        page_type: 3,
        uncompressed_size: uncompressed,
        compressed_size: section.len() as i32,
        v2_num_values: v.num_values,
        v2_num_nulls: v.num_nulls,
        v2_encoding: v.encoding,
        v2_def_len: v.def_len,
        v2_rep_len: v.rep_len,
        v2_is_compressed: v.is_compressed,
        ..blank_header()
    }
}

proof fn lemma_v2_header(v: V2, uncompressed: i32, section: Seq<u8>)
    requires
        section.len() <= i32::MAX,
    ensures
        page_ok(v2_page(v, uncompressed, section)),
        header_of(v2_page(v, uncompressed, section)) == v2_header(v, uncompressed, section),
{
    let fields = v2_page(v, uncompressed, section).header;
    let inner = fields[3].1->Struct_0;
    assert(v2_fields_ok(inner));
    assert(datum_ok(fields[3].1));
    assert forall|i: int| 0 <= i < fields.len() implies header_takes(
        (#[trigger] fields[i]).0,
        fields[i].1,
    ) && datum_ok(fields[i].1) by {}
    reveal_with_fuel(header_after, 5);
    reveal_with_fuel(v2_after, 8);
}

/// The outcome of a page, with the position behind it.
pub open spec fn ending<T>(r: Result<T, PqErrorView>, end: int) -> Result<(T, int), PqErrorView> {
    match r {
        Ok(v) => Ok((v, end)),
        Err(e) => Err(e),
    }
}

proof fn lemma_section(page: Page, past: Seq<char>)
    requires
        page_ok(page),
        page_form(page).len() <= usize::MAX,
    ensures
        header_at(page_form(page), 0, past) == Ok::<(PageHeader, int), PqErrorView>(
            (header_of(page), header_len(page)),
        ),
        page_form(page).subrange(header_len(page), page_form(page).len() as int) == page.section,
        header_len(page) + page.section.len() == page_form(page).len(),
{
    lemma_alone(page);
    lemma_header_at(page_form(page), 0, page, past);
}

/// A data page of the first kind gives what its payload holds: the levels and the values, in a flat
/// column and in a nested one. The page is within the cap, and its section expands to the payload.
pub proof fn law_v1_page(
    n: i32,
    encoding: i32,
    uncompressed: i32,
    section: Seq<u8>,
    payload: Seq<u8>,
    cc: ColumnChunkView,
    spec: PlainSpec,
    max_def: u32,
    max_rep: u32,
    dict: Seq<PqV>,
    cap: int,
)
    requires
        0 <= n,
        0 <= uncompressed <= cap,
        section.len() <= i32::MAX,
        section.len() <= cap,
        expanded(cc.codec, section, uncompressed as nat, page_words()) == Ok::<
            Seq<u8>,
            PqErrorView,
        >(payload),
        encoding == 2 || encoding == 8 ==> cc.dictionary_page_offset is Some,
        page_form(v1_page(n, encoding, uncompressed, section)).len() <= usize::MAX,
    ensures
        ({
            let page = v1_page(n, encoding, uncompressed, section);
            let end = page_form(page).len() as int;
            &&& page_ok(page)
            &&& flat_page_at(page_form(page), 0, cc, spec, max_def, dict, cap) == ending(
                flat_page(payload, encoding, spec, n as nat, max_def, dict),
                end,
            )
            &&& nested_page_at(page_form(page), 0, cc, spec, max_def, max_rep, dict, cap) == ending(
                nested_page(payload, encoding, spec, n as nat, max_rep, max_def, dict),
                end,
            )
        }),
{
    let page = v1_page(n, encoding, uncompressed, section);
    lemma_v1_header(n, encoding, uncompressed, section);
    lemma_section(page, "data page offset past EOF"@);
    let h = header_of(page);
    let start = header_len(page);
    let flat = SizeWords {
        compressed: "v1 page compressed"@,
        uncompressed: "v1 page uncompressed"@,
    };
    let nested = SizeWords {
        compressed: "nested v1 page compressed"@,
        uncompressed: "nested v1 page uncompressed"@,
    };
    assert(v1_payload(page_form(page), start, h, cc, flat, cap) == Ok::<
        (int, Seq<u8>),
        PqErrorView,
    >((n as int, payload)));
    assert(v1_payload(page_form(page), start, h, cc, nested, cap) == Ok::<
        (int, Seq<u8>),
        PqErrorView,
    >((n as int, payload)));
}

/// A data page of the second kind gives what its section holds, in a flat column and in a nested
/// one. The page is within the cap.
pub proof fn law_v2_page(
    v: V2,
    uncompressed: i32,
    section: Seq<u8>,
    cc: ColumnChunkView,
    spec: PlainSpec,
    max_def: u32,
    max_rep: u32,
    dict: Seq<PqV>,
    cap: int,
)
    requires
        section.len() <= i32::MAX,
        section.len() <= cap,
        page_form(v2_page(v, uncompressed, section)).len() <= usize::MAX,
    ensures
        ({
            let page = v2_page(v, uncompressed, section);
            let h = v2_header(v, uncompressed, section);
            let end = page_form(page).len() as int;
            &&& page_ok(page)
            &&& flat_page_at(page_form(page), 0, cc, spec, max_def, dict, cap) == ending(
                flat_page_v2(section, h, cc.codec, spec, max_def, dict, cap),
                end,
            )
            &&& nested_page_at(page_form(page), 0, cc, spec, max_def, max_rep, dict, cap) == ending(
                nested_v2_of(section, h, cc, spec, max_def, max_rep, dict, cap),
                end,
            )
        }),
{
    let page = v2_page(v, uncompressed, section);
    lemma_v2_header(v, uncompressed, section);
    lemma_section(page, "data page offset past EOF"@);
    let h = header_of(page);
    let start = header_len(page);
    assert(v2_region(page_form(page), start, h, "v2 page compressed"@, cap) == Ok::<
        Seq<u8>,
        PqErrorView,
    >(section));
    assert(v2_region(page_form(page), start, h, "nested v2 page compressed"@, cap) == Ok::<
        Seq<u8>,
        PqErrorView,
    >(section));
}

/// A dictionary page gives the values that its payload holds. The page is within the cap, and its
/// section expands to the payload.
pub proof fn law_dict_page(
    n: i32,
    encoding: i32,
    uncompressed: i32,
    section: Seq<u8>,
    payload: Seq<u8>,
    cc: ColumnChunkView,
    spec: PlainSpec,
    w: SizeWords,
    cap: int,
)
    requires
        0 <= n,
        encoding == 0 || encoding == 2,
        0 <= uncompressed <= cap,
        section.len() <= i32::MAX,
        section.len() <= cap,
        expanded(cc.codec, section, uncompressed as nat, page_words()) == Ok::<
            Seq<u8>,
            PqErrorView,
        >(payload),
        page_form(dict_page(n, encoding, uncompressed, section)).len() <= usize::MAX,
    ensures
        ({
            let page = dict_page(n, encoding, uncompressed, section);
            &&& page_ok(page)
            &&& dictionary(page_form(page), with_dictionary(cc, 0), spec, w, cap) == plain_values(
                payload,
                spec,
                n as nat,
            )
        }),
{
    let page = dict_page(n, encoding, uncompressed, section);
    lemma_dict_header(n, encoding, uncompressed, section);
    lemma_section(page, "dict page offset past EOF"@);
}

} // verus!
