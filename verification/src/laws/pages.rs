//! Pages and column chunks: a page reads the same wherever it stands, and a chunk gives the values
//! of its pages one after the other.
use vstd::prelude::*;

use crate::chunk::{
    chunk_levels, chunk_ready, chunk_values, dictionary, flat_page_at, flat_pages, header_at,
    nested_page_at, nested_pages, sized_payload, v1_payload, v2_region, SizeWords,
};
use crate::error::PqErrorView;
use crate::laws::counts::law_nested_page_len;
use crate::laws::fields::{datum_form, lemma_stands, lemma_stands_whole, stands, Datum};
use crate::laws::headers::{header_after, header_fields_ok, law_page_header};
use crate::meta::{blank_header, ColumnChunkView, PageHeader};
use crate::page::Levels;
use crate::plain::{Plain, PlainSpec};
use crate::value::PqV;

verus! {

/// A page as it is stored: its header, and the bytes behind it.
pub struct Page {
    pub header: Seq<(i16, Datum)>,
    pub section: Seq<u8>,
}

/// What the header of a page says.
pub open spec fn header_of(page: Page) -> PageHeader {
    header_after(blank_header(), page.header, page.header.len())
}

/// Whether a page is one: its header is a page header, and says how many bytes follow.
pub open spec fn page_ok(page: Page) -> bool {
    &&& header_fields_ok(page.header)
    &&& header_of(page).compressed_size == page.section.len()
}

/// How a page is written.
pub open spec fn page_form(page: Page) -> Seq<u8> {
    datum_form(Datum::Struct(page.header)) + page.section
}

/// Where the section of a page starts.
pub open spec fn header_len(page: Page) -> int {
    datum_form(Datum::Struct(page.header)).len() as int
}

pub proof fn lemma_header_at(file: Seq<u8>, off: int, page: Page, past: Seq<char>)
    requires
        stands(file, off, page_form(page)),
        page_ok(page),
        file.len() <= usize::MAX,
    ensures
        header_at(file, off, past) == Ok::<(PageHeader, int), PqErrorView>(
            (header_of(page), off + header_len(page)),
        ),
        file.subrange(off + header_len(page), off + page_form(page).len()) == page.section,
{
    let s = datum_form(Datum::Struct(page.header));
    lemma_stands(file, off, s, page.section);
    lemma_stands_whole(file, off, s);
    let after = file.skip(off + s.len());
    assert(file.skip(off) =~= s + after);
    law_page_header(page.header, after);
}

/// The outcome of a page, moved by `off`.
pub open spec fn moved<T>(r: Result<(T, int), PqErrorView>, off: int) -> Result<
    (T, int),
    PqErrorView,
> {
    match r {
        Ok((v, end)) => Ok((v, off + end)),
        Err(e) => Err(e),
    }
}

pub proof fn lemma_alone(page: Page)
    ensures
        stands(page_form(page), 0, page_form(page)),
{
    assert(page_form(page).subrange(0, page_form(page).len() as int) =~= page_form(page));
}

/// Whether the header `h` ends at `start` of the file and at `start2` of the other, and the same
/// section follows it in both.
spec fn same_section(file: Seq<u8>, start: int, file2: Seq<u8>, start2: int, h: PageHeader) -> bool {
    let n = h.compressed_size as int;
    &&& 0 <= n
    &&& 0 <= start
    &&& 0 <= start2
    &&& start + n <= file.len() <= usize::MAX
    &&& start2 + n <= file2.len() <= usize::MAX
    &&& file.subrange(start, start + n) == file2.subrange(start2, start2 + n)
}

proof fn lemma_same_section(
    file: Seq<u8>,
    start: int,
    file2: Seq<u8>,
    start2: int,
    h: PageHeader,
    cc: ColumnChunkView,
    words: (Seq<char>, Seq<char>, Seq<char>),
    w: SizeWords,
    cap: int,
)
    requires
        same_section(file, start, file2, start2, h),
    ensures
        sized_payload(file, start, h, cc, words.0, words.1, w, cap) == sized_payload(
            file2,
            start2,
            h,
            cc,
            words.0,
            words.1,
            w,
            cap,
        ),
        v2_region(file, start, h, words.2, cap) == v2_region(file2, start2, h, words.2, cap),
{
}

proof fn lemma_same_v1(
    file: Seq<u8>,
    start: int,
    file2: Seq<u8>,
    start2: int,
    h: PageHeader,
    cc: ColumnChunkView,
    w: SizeWords,
    region: Seq<char>,
    cap: int,
)
    requires
        same_section(file, start, file2, start2, h),
    ensures
        v1_payload(file, start, h, cc, w, cap) == v1_payload(file2, start2, h, cc, w, cap),
        v2_region(file, start, h, region, cap) == v2_region(file2, start2, h, region, cap),
{
    let words = ("page comp size range"@, "page size range"@, region);
    lemma_same_section(file, start, file2, start2, h, cc, words, w, cap);
}

proof fn lemma_same_header(file: Seq<u8>, off: int, page: Page, past: Seq<char>) -> (h: PageHeader)
    requires
        stands(file, off, page_form(page)),
        page_ok(page),
        file.len() <= usize::MAX,
    ensures
        header_at(file, off, past) == Ok::<(PageHeader, int), PqErrorView>(
            (h, off + header_len(page)),
        ),
        header_at(page_form(page), 0, past) == Ok::<(PageHeader, int), PqErrorView>(
            (h, header_len(page)),
        ),
        same_section(file, off + header_len(page), page_form(page), header_len(page), h),
{
    lemma_alone(page);
    lemma_header_at(file, off, page, past);
    lemma_header_at(page_form(page), 0, page, past);
    header_of(page)
}

proof fn lemma_same_flat(
    file: Seq<u8>,
    off: int,
    start: int,
    file2: Seq<u8>,
    off2: int,
    start2: int,
    h: PageHeader,
    cc: ColumnChunkView,
    spec: PlainSpec,
    max_def: u32,
    dict: Seq<PqV>,
    cap: int,
)
    requires
        header_at(file, off, "data page offset past EOF"@) == Ok::<(PageHeader, int), PqErrorView>(
            (h, start),
        ),
        header_at(file2, off2, "data page offset past EOF"@) == Ok::<
            (PageHeader, int),
            PqErrorView,
        >((h, start2)),
        same_section(file, start, file2, start2, h),
    ensures
        flat_page_at(file, off, cc, spec, max_def, dict, cap) == moved(
            flat_page_at(file2, off2, cc, spec, max_def, dict, cap),
            start - start2,
        ),
{
    let w = SizeWords { compressed: "v1 page compressed"@, uncompressed: "v1 page uncompressed"@ };
    lemma_same_v1(file, start, file2, start2, h, cc, w, "v2 page compressed"@, cap);
}

proof fn lemma_same_nested(
    file: Seq<u8>,
    off: int,
    start: int,
    file2: Seq<u8>,
    off2: int,
    start2: int,
    h: PageHeader,
    cc: ColumnChunkView,
    spec: PlainSpec,
    max_def: u32,
    max_rep: u32,
    dict: Seq<PqV>,
    cap: int,
)
    requires
        header_at(file, off, "data page offset past EOF"@) == Ok::<(PageHeader, int), PqErrorView>(
            (h, start),
        ),
        header_at(file2, off2, "data page offset past EOF"@) == Ok::<
            (PageHeader, int),
            PqErrorView,
        >((h, start2)),
        same_section(file, start, file2, start2, h),
    ensures
        nested_page_at(file, off, cc, spec, max_def, max_rep, dict, cap) == moved(
            nested_page_at(file2, off2, cc, spec, max_def, max_rep, dict, cap),
            start - start2,
        ),
{
    let w = SizeWords {
        compressed: "nested v1 page compressed"@,
        uncompressed: "nested v1 page uncompressed"@,
    };
    lemma_same_v1(file, start, file2, start2, h, cc, w, "nested v2 page compressed"@, cap);
}

/// A page of a flat column gives the same values, or the same complaint, wherever it stands and
/// whatever stands around it.
pub proof fn law_page_anywhere(
    file: Seq<u8>,
    off: int,
    page: Page,
    cc: ColumnChunkView,
    spec: PlainSpec,
    max_def: u32,
    dict: Seq<PqV>,
    cap: int,
)
    requires
        stands(file, off, page_form(page)),
        page_ok(page),
        file.len() <= usize::MAX,
    ensures
        flat_page_at(file, off, cc, spec, max_def, dict, cap) == moved(
            flat_page_at(page_form(page), 0, cc, spec, max_def, dict, cap),
            off,
        ),
{
    let h = lemma_same_header(file, off, page, "data page offset past EOF"@);
    let n = header_len(page);
    lemma_same_flat(file, off, off + n, page_form(page), 0, n, h, cc, spec, max_def, dict, cap);
}

/// A page of a nested column gives the same levels and values, or the same complaint, wherever it
/// stands and whatever stands around it.
pub proof fn law_nested_page_anywhere(
    file: Seq<u8>,
    off: int,
    page: Page,
    cc: ColumnChunkView,
    spec: PlainSpec,
    max_def: u32,
    max_rep: u32,
    dict: Seq<PqV>,
    cap: int,
)
    requires
        stands(file, off, page_form(page)),
        page_ok(page),
        file.len() <= usize::MAX,
    ensures
        nested_page_at(file, off, cc, spec, max_def, max_rep, dict, cap) == moved(
            nested_page_at(page_form(page), 0, cc, spec, max_def, max_rep, dict, cap),
            off,
        ),
{
    let h = lemma_same_header(file, off, page, "data page offset past EOF"@);
    let n = header_len(page);
    lemma_same_nested(
        file,
        off,
        off + n,
        page_form(page),
        0,
        n,
        h,
        cc,
        spec,
        max_def,
        max_rep,
        dict,
        cap,
    );
}

/// The column chunk with its dictionary at `at`.
pub open spec fn with_dictionary(cc: ColumnChunkView, at: i64) -> ColumnChunkView {
    ColumnChunkView { dictionary_page_offset: Some(at), ..cc }
}

/// A dictionary page gives the same dictionary, or the same complaint, wherever it stands and
/// whatever stands around it.
pub proof fn law_dictionary_anywhere(
    file: Seq<u8>,
    off: i64,
    page: Page,
    cc: ColumnChunkView,
    spec: PlainSpec,
    w: SizeWords,
    cap: int,
)
    requires
        stands(file, off as int, page_form(page)),
        page_ok(page),
        file.len() <= usize::MAX,
    ensures
        dictionary(file, with_dictionary(cc, off), spec, w, cap) == dictionary(
            page_form(page),
            with_dictionary(cc, 0),
            spec,
            w,
            cap,
        ),
{
    let h = lemma_same_header(file, off as int, page, "dict page offset past EOF"@);
    let n = header_len(page);
    let words = ("dict page comp size range"@, "dict page size range"@, ""@);
    let here = with_dictionary(cc, off);
    let alone = with_dictionary(cc, 0);
    lemma_same_section(file, off + n, page_form(page), n, h, here, words, w, cap);
    assert(sized_payload(file, off + n, h, here, words.0, words.1, w, cap) == sized_payload(
        file,
        off + n,
        h,
        alone,
        words.0,
        words.1,
        w,
        cap,
    ));
    lemma_same_section(file, off + n, page_form(page), n, h, alone, words, w, cap);
}

/// How the first `k` pages are written.
pub open spec fn pages_form(pages: Seq<Page>, k: nat) -> Seq<u8>
    decreases k,
{
    if k == 0 {
        seq![]
    } else {
        pages_form(pages, (k - 1) as nat) + page_form(pages[k - 1])
    }
}

/// The values of the first `k` pages of a flat column, each page read alone.
pub open spec fn pages_values(
    pages: Seq<Page>,
    cc: ColumnChunkView,
    spec: PlainSpec,
    max_def: u32,
    dict: Seq<PqV>,
    cap: int,
    k: nat,
) -> Plain
    decreases k,
{
    if k == 0 {
        Ok(seq![])
    } else {
        match pages_values(pages, cc, spec, max_def, dict, cap, (k - 1) as nat) {
            Err(e) => Err(e),
            Ok(before) => match flat_page_at(
                page_form(pages[k - 1]),
                0,
                cc,
                spec,
                max_def,
                dict,
                cap,
            ) {
                Err(e) => Err(e),
                Ok((v, _)) => Ok(before + v),
            },
        }
    }
}

proof fn lemma_pages_form(file: Seq<u8>, off: int, pages: Seq<Page>, n: nat, k: nat)
    requires
        stands(file, off, pages_form(pages, n)),
        k < n,
    ensures
        stands(file, off + pages_form(pages, k).len(), page_form(pages[k as int])),
        pages_form(pages, k + 1).len() == pages_form(pages, k).len() + page_form(
            pages[k as int],
        ).len(),
    decreases n,
{
    lemma_stands(file, off, pages_form(pages, (n - 1) as nat), page_form(pages[n - 1]));
    if k + 1 < n {
        lemma_pages_form(file, off, pages, (n - 1) as nat, k);
    }
}

proof fn lemma_pages_prefix(
    pages: Seq<Page>,
    cc: ColumnChunkView,
    spec: PlainSpec,
    max_def: u32,
    dict: Seq<PqV>,
    cap: int,
    k: nat,
    n: nat,
)
    requires
        k <= n,
        pages_values(pages, cc, spec, max_def, dict, cap, n) is Ok,
    ensures
        pages_values(pages, cc, spec, max_def, dict, cap, k) is Ok,
        pages_values(pages, cc, spec, max_def, dict, cap, k)->Ok_0.is_prefix_of(
            pages_values(pages, cc, spec, max_def, dict, cap, n)->Ok_0,
        ),
    decreases n,
{
    if k < n {
        lemma_pages_prefix(pages, cc, spec, max_def, dict, cap, k, (n - 1) as nat);
    }
}

proof fn lemma_page_end(
    page: Page,
    cc: ColumnChunkView,
    spec: PlainSpec,
    max_def: u32,
    dict: Seq<PqV>,
    cap: int,
)
    requires
        page_ok(page),
        page_form(page).len() <= usize::MAX,
    ensures
        flat_page_at(page_form(page), 0, cc, spec, max_def, dict, cap) matches Ok((_, end)) ==> end
            == page_form(page).len(),
{
    lemma_alone(page);
    lemma_header_at(page_form(page), 0, page, "data page offset past EOF"@);
}

proof fn lemma_pages(
    file: Seq<u8>,
    off: int,
    pages: Seq<Page>,
    cc: ColumnChunkView,
    spec: PlainSpec,
    max_def: u32,
    dict: Seq<PqV>,
    cap: int,
    k: nat,
)
    requires
        stands(file, off, pages_form(pages, pages.len())),
        forall|i: int| 0 <= i < pages.len() ==> page_ok(#[trigger] pages[i]),
        file.len() <= usize::MAX,
        pages_values(pages, cc, spec, max_def, dict, cap, pages.len()) is Ok,
        k <= pages.len(),
    ensures
        ({
            let all = pages_values(pages, cc, spec, max_def, dict, cap, pages.len())->Ok_0;
            flat_pages(
                file,
                off + pages_form(pages, k).len(),
                cc,
                spec,
                max_def,
                dict,
                all.len() as int,
                pages_values(pages, cc, spec, max_def, dict, cap, k)->Ok_0,
                cap,
            ) == Ok::<Seq<PqV>, PqErrorView>(all)
        }),
    decreases pages.len() - k,
{
    let n = pages.len();
    let all = pages_values(pages, cc, spec, max_def, dict, cap, n)->Ok_0;
    let have = pages_values(pages, cc, spec, max_def, dict, cap, k)->Ok_0;
    lemma_pages_prefix(pages, cc, spec, max_def, dict, cap, k, n);
    if have.len() >= all.len() {
        assert(have =~= all);
    } else {
        assert(k < n);
        lemma_pages_form(file, off, pages, n, k);
        let at = off + pages_form(pages, k).len();
        let page = pages[k as int];
        lemma_pages_prefix(pages, cc, spec, max_def, dict, cap, k + 1, n);
        law_page_anywhere(file, at, page, cc, spec, max_def, dict, cap);
        lemma_page_end(page, cc, spec, max_def, dict, cap);
        lemma_pages(file, off, pages, cc, spec, max_def, dict, cap, k + 1);
    }
}

/// What the dictionary of a flat column is called when it is too large.
pub open spec fn dictionary_words() -> SizeWords {
    SizeWords { compressed: "dict page compressed"@, uncompressed: "dict page uncompressed"@ }
}

/// The dictionary of a chunk whose dictionary page is `page`: empty where there is none.
pub open spec fn dictionary_of(
    page: Option<Page>,
    cc: ColumnChunkView,
    spec: PlainSpec,
    cap: int,
) -> Plain {
    match page {
        None => Ok(seq![]),
        Some(d) => dictionary(page_form(d), with_dictionary(cc, 0), spec, dictionary_words(), cap),
    }
}

/// A chunk of a flat column gives the values of its pages, one page after the other, where it says
/// how many values these are, where the pages start and where its dictionary stands.
pub proof fn law_chunk(
    file: Seq<u8>,
    cc: ColumnChunkView,
    dict_page: Option<Page>,
    pages: Seq<Page>,
    spec: PlainSpec,
    max_def: u32,
    dict: Seq<PqV>,
    vals: Seq<PqV>,
    cap: int,
)
    requires
        file.len() <= usize::MAX,
        chunk_ready(cc) is Ok,
        dict_page is Some <==> cc.dictionary_page_offset is Some,
        dict_page matches Some(d) ==> page_ok(d) && stands(
            file,
            cc.dictionary_page_offset->Some_0 as int,
            page_form(d),
        ),
        dictionary_of(dict_page, cc, spec, cap) == Ok::<Seq<PqV>, PqErrorView>(dict),
        forall|i: int| 0 <= i < pages.len() ==> page_ok(#[trigger] pages[i]),
        stands(file, cc.data_page_offset as int, pages_form(pages, pages.len())),
        pages_values(pages, cc, spec, max_def, dict, cap, pages.len()) == Ok::<
            Seq<PqV>,
            PqErrorView,
        >(vals),
        cc.num_values == vals.len() <= usize::MAX,
    ensures
        chunk_values(file, cc, spec, max_def, cap) == Ok::<Seq<PqV>, PqErrorView>(vals),
{
    reveal(chunk_values);
    match dict_page {
        None => {},
        Some(d) => {
            let at = cc.dictionary_page_offset->Some_0;
            law_dictionary_anywhere(file, at, d, cc, spec, dictionary_words(), cap);
            assert(with_dictionary(cc, at) == cc);
        },
    }
    lemma_pages(file, cc.data_page_offset as int, pages, cc, spec, max_def, dict, cap, 0);
}

/// What the dictionary of a nested column is called when it is too large.
pub open spec fn nested_dictionary_words() -> SizeWords {
    SizeWords {
        compressed: "nested dict page compressed"@,
        uncompressed: "nested dict page uncompressed"@,
    }
}

/// The dictionary of a nested column's chunk whose dictionary page is `page`: empty where there is
/// none.
pub open spec fn nested_dictionary_of(
    page: Option<Page>,
    cc: ColumnChunkView,
    spec: PlainSpec,
    cap: int,
) -> Plain {
    match page {
        None => Ok(seq![]),
        Some(d) => dictionary(
            page_form(d),
            with_dictionary(cc, 0),
            spec,
            nested_dictionary_words(),
            cap,
        ),
    }
}

/// Levels and values, one lot after the other.
pub open spec fn behind(a: Levels, b: Levels) -> Levels {
    (a.0 + b.0, a.1 + b.1, a.2 + b.2)
}

/// The levels and the values of the first `k` pages of a nested column, each page read alone.
pub open spec fn pages_levels(
    pages: Seq<Page>,
    cc: ColumnChunkView,
    spec: PlainSpec,
    max_def: u32,
    max_rep: u32,
    dict: Seq<PqV>,
    cap: int,
    k: nat,
) -> Result<Levels, PqErrorView>
    decreases k,
{
    if k == 0 {
        Ok((seq![], seq![], seq![]))
    } else {
        match pages_levels(pages, cc, spec, max_def, max_rep, dict, cap, (k - 1) as nat) {
            Err(e) => Err(e),
            Ok(before) => match nested_page_at(
                page_form(pages[k - 1]),
                0,
                cc,
                spec,
                max_def,
                max_rep,
                dict,
                cap,
            ) {
                Err(e) => Err(e),
                Ok((l, _)) => Ok(behind(before, l)),
            },
        }
    }
}

proof fn lemma_levels_grow(
    pages: Seq<Page>,
    cc: ColumnChunkView,
    spec: PlainSpec,
    max_def: u32,
    max_rep: u32,
    dict: Seq<PqV>,
    cap: int,
    k: nat,
    n: nat,
)
    requires
        k <= n <= pages.len(),
        pages_levels(pages, cc, spec, max_def, max_rep, dict, cap, n) is Ok,
    ensures
        pages_levels(pages, cc, spec, max_def, max_rep, dict, cap, k) is Ok,
        ({
            let have = pages_levels(pages, cc, spec, max_def, max_rep, dict, cap, k)->Ok_0;
            let all = pages_levels(pages, cc, spec, max_def, max_rep, dict, cap, n)->Ok_0;
            &&& have.0.len() <= all.0.len()
            &&& have.0.len() == all.0.len() ==> have == all
        }),
    decreases n,
{
    if k < n {
        let m = (n - 1) as nat;
        lemma_levels_grow(pages, cc, spec, max_def, max_rep, dict, cap, k, m);
        let page = page_form(pages[m as int]);
        law_nested_page_len(page, 0, cc, spec, max_def, max_rep, dict, cap);
        let before = pages_levels(pages, cc, spec, max_def, max_rep, dict, cap, m)->Ok_0;
        let l = nested_page_at(page, 0, cc, spec, max_def, max_rep, dict, cap)->Ok_0.0;
        if l.0.len() == 0 {
            assert(behind(before, l).0 =~= before.0);
            assert(behind(before, l).1 =~= before.1);
            assert(behind(before, l).2 =~= before.2);
        }
    }
}

proof fn lemma_nested_page_end(
    page: Page,
    cc: ColumnChunkView,
    spec: PlainSpec,
    max_def: u32,
    max_rep: u32,
    dict: Seq<PqV>,
    cap: int,
)
    requires
        page_ok(page),
        page_form(page).len() <= usize::MAX,
    ensures
        nested_page_at(page_form(page), 0, cc, spec, max_def, max_rep, dict, cap) matches Ok(
            (_, end),
        ) ==> end == page_form(page).len(),
{
    lemma_alone(page);
    lemma_header_at(page_form(page), 0, page, "data page offset past EOF"@);
}

proof fn lemma_nested_pages(
    file: Seq<u8>,
    off: int,
    pages: Seq<Page>,
    cc: ColumnChunkView,
    spec: PlainSpec,
    max_def: u32,
    max_rep: u32,
    dict: Seq<PqV>,
    cap: int,
    k: nat,
)
    requires
        stands(file, off, pages_form(pages, pages.len())),
        forall|i: int| 0 <= i < pages.len() ==> page_ok(#[trigger] pages[i]),
        file.len() <= usize::MAX,
        pages_levels(pages, cc, spec, max_def, max_rep, dict, cap, pages.len()) is Ok,
        k <= pages.len(),
    ensures
        ({
            let all = pages_levels(pages, cc, spec, max_def, max_rep, dict, cap, pages.len())->Ok_0;
            nested_pages(
                file,
                off + pages_form(pages, k).len(),
                cc,
                spec,
                max_def,
                max_rep,
                dict,
                all.0.len() as int,
                pages_levels(pages, cc, spec, max_def, max_rep, dict, cap, k)->Ok_0,
                cap,
            ) == Ok::<Levels, PqErrorView>(all)
        }),
    decreases pages.len() - k,
{
    let n = pages.len();
    let all = pages_levels(pages, cc, spec, max_def, max_rep, dict, cap, n)->Ok_0;
    let have = pages_levels(pages, cc, spec, max_def, max_rep, dict, cap, k)->Ok_0;
    lemma_levels_grow(pages, cc, spec, max_def, max_rep, dict, cap, k, n);
    if have.0.len() < all.0.len() {
        assert(k < n);
        lemma_pages_form(file, off, pages, n, k);
        let at = off + pages_form(pages, k).len();
        let page = pages[k as int];
        lemma_levels_grow(pages, cc, spec, max_def, max_rep, dict, cap, k + 1, n);
        law_nested_page_anywhere(file, at, page, cc, spec, max_def, max_rep, dict, cap);
        lemma_nested_page_end(page, cc, spec, max_def, max_rep, dict, cap);
        lemma_nested_pages(file, off, pages, cc, spec, max_def, max_rep, dict, cap, k + 1);
    }
}

/// A chunk of a nested column gives the levels and the values of its pages, one page after the
/// other, where it says how many levels these are, where the pages start and where its dictionary
/// stands.
pub proof fn law_nested_chunk(
    file: Seq<u8>,
    cc: ColumnChunkView,
    dict_page: Option<Page>,
    pages: Seq<Page>,
    spec: PlainSpec,
    max_def: u32,
    max_rep: u32,
    dict: Seq<PqV>,
    levels: Levels,
    cap: int,
)
    requires
        file.len() <= usize::MAX,
        chunk_ready(cc) is Ok,
        dict_page is Some <==> cc.dictionary_page_offset is Some,
        dict_page matches Some(d) ==> page_ok(d) && stands(
            file,
            cc.dictionary_page_offset->Some_0 as int,
            page_form(d),
        ),
        nested_dictionary_of(dict_page, cc, spec, cap) == Ok::<Seq<PqV>, PqErrorView>(dict),
        forall|i: int| 0 <= i < pages.len() ==> page_ok(#[trigger] pages[i]),
        stands(file, cc.data_page_offset as int, pages_form(pages, pages.len())),
        pages_levels(pages, cc, spec, max_def, max_rep, dict, cap, pages.len()) == Ok::<
            Levels,
            PqErrorView,
        >(levels),
        cc.num_values == levels.0.len() <= usize::MAX,
    ensures
        chunk_levels(file, cc, spec, max_def, max_rep, cap) == Ok::<Levels, PqErrorView>(levels),
{
    reveal(chunk_levels);
    match dict_page {
        None => {},
        Some(d) => {
            let at = cc.dictionary_page_offset->Some_0;
            law_dictionary_anywhere(file, at, d, cc, spec, nested_dictionary_words(), cap);
            assert(with_dictionary(cc, at) == cc);
        },
    }
    lemma_nested_pages(
        file,
        cc.data_page_offset as int,
        pages,
        cc,
        spec,
        max_def,
        max_rep,
        dict,
        cap,
        0,
    );
}

} // verus!
