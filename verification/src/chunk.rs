//! Column chunks: the pages that hold a column's values in one row group.
use vstd::prelude::*;
use vstd::slice::slice_subrange;

use crate::codec::{codec_error, codec_known, knows_codec, refuse_codec};
use crate::error::{bad, unsupported, PqError, PqErrorView};
use crate::meta::{
    decode_page_header, page_header_of, ColumnChunk, ColumnChunkView, Encoding, PageHeader,
};
use crate::page::{
    check_page_size, decode_data_page_v2, decode_data_page_v2_nested, decode_page,
    decode_page_v1_nested, flat_page, flat_page_v2, gives_levels, length_of, nested_page,
    nested_page_v2, page_payload, page_size, payload_of, to_length, Levels,
};
use crate::plain::{decode_plain, decodes, plain_values, Plain, PlainSpec};
use crate::snappy::yields;
use crate::value::{values, PqV, PqValue};

verus! {

/// Whether an encoding is supported.
pub open spec fn encoding_known(e: Encoding) -> bool {
    match e {
        Encoding::Other(_) => false,
        _ => true,
    }
}

/// Whether a chunk's codec and encodings are supported: the complaint where they are not.
pub open spec fn chunk_ready(cc: ColumnChunkView) -> Result<(), PqErrorView> {
    if !codec_known(cc.codec) {
        Err(codec_error(cc.codec))
    } else if exists|i: int|
        0 <= i < cc.encodings.len() && !encoding_known(#[trigger] cc.encodings[i]) {
        Err(
            PqErrorView::Unsupported(
                "non-PLAIN/dictionary encoding (DELTA/BYTE_STREAM_SPLIT): OBJ-2c"@,
            ),
        )
    } else {
        Ok(())
    }
}

/// The page header at `off` of the file, and the position behind it.
pub open spec fn header_at(file: Seq<u8>, off: int, past: Seq<char>) -> Result<
    (PageHeader, int),
    PqErrorView,
> {
    if off > file.len() {
        Err(PqErrorView::Bad(past))
    } else {
        match page_header_of(file.skip(off)) {
            Err(e) => Err(e),
            Ok((h, n)) => if 0 < n <= file.len() - off {
                Ok((h, off + n))
            } else {
                Err(PqErrorView::Bad(past))
            },
        }
    }
}

/// The words for what is too large about a page.
pub struct SizeWords {
    pub compressed: Seq<char>,
    pub uncompressed: Seq<char>,
}

/// The payload of a page behind its header at `start`. `comp_range` and `uncomp_range` are the
/// complaints about sizes that are no lengths.
pub open spec fn sized_payload(
    file: Seq<u8>,
    start: int,
    h: PageHeader,
    cc: ColumnChunkView,
    comp_range: Seq<char>,
    uncomp_range: Seq<char>,
    w: SizeWords,
    cap: int,
) -> Result<Seq<u8>, PqErrorView> {
    match length_of(h.compressed_size as int, comp_range) {
        Err(e) => Err(e),
        Ok(comp) => match length_of(h.uncompressed_size as int, uncomp_range) {
            Err(e) => Err(e),
            Ok(uncomp) => match page_size(w.compressed, comp, cap) {
                Err(e) => Err(e),
                Ok(_) => match page_size(w.uncompressed, uncomp, cap) {
                    Err(e) => Err(e),
                    Ok(_) => payload_of(file, start, comp, uncomp, cc.codec),
                },
            },
        },
    }
}

/// The dictionary of a chunk: empty where it has none.
pub open spec fn dictionary(
    file: Seq<u8>,
    cc: ColumnChunkView,
    spec: PlainSpec,
    w: SizeWords,
    cap: int,
) -> Plain {
    match cc.dictionary_page_offset {
        None => Ok(seq![]),
        Some(at) => match length_of(at as int, "dict page offset range"@) {
            Err(e) => Err(e),
            Ok(off) => match header_at(file, off, "dict page offset past EOF"@) {
                Err(e) => Err(e),
                Ok((h, start)) => if h.page_type != 2 {
                    Err(
                        PqErrorView::Bad(
                            "dictionary_page_offset does not point at a DICTIONARY_PAGE"@,
                        ),
                    )
                } else if h.dict_encoding != 0 && h.dict_encoding != 2 {
                    Err(
                        PqErrorView::Unsupported(
                            "dictionary page encoding (not PLAIN/PLAIN_DICTIONARY): OBJ-2c"@,
                        ),
                    )
                } else {
                    match length_of(h.dict_num_values as int, "dict num_values range"@) {
                        Err(e) => Err(e),
                        Ok(n) => match sized_payload(
                            file,
                            start,
                            h,
                            cc,
                            "dict page comp size range"@,
                            "dict page size range"@,
                            w,
                            cap,
                        ) {
                            Err(e) => Err(e),
                            Ok(payload) => plain_values(payload, spec, n as nat),
                        },
                    }
                },
            },
        },
    }
}

/// How many values a data page of the first kind holds, and its payload.
pub open spec fn v1_payload(
    file: Seq<u8>,
    start: int,
    h: PageHeader,
    cc: ColumnChunkView,
    w: SizeWords,
    cap: int,
) -> Result<(int, Seq<u8>), PqErrorView> {
    match length_of(h.dp_num_values as int, "num_values range"@) {
        Err(e) => Err(e),
        Ok(n) => match sized_payload(
            file,
            start,
            h,
            cc,
            "page comp size range"@,
            "page size range"@,
            w,
            cap,
        ) {
            Err(e) => Err(e),
            Ok(payload) => if (h.dp_encoding == 2 || h.dp_encoding == 8)
                && cc.dictionary_page_offset is None {
                Err(
                    PqErrorView::Bad(
                        "dictionary-encoded data page without dictionary_page_offset"@,
                    ),
                )
            } else {
                Ok((n, payload))
            },
        },
    }
}

/// The bytes of a data page of the second kind.
pub open spec fn v2_region(
    file: Seq<u8>,
    start: int,
    h: PageHeader,
    compressed: Seq<char>,
    cap: int,
) -> Result<Seq<u8>, PqErrorView> {
    match length_of(h.compressed_size as int, "v2 comp size range"@) {
        Err(e) => Err(e),
        Ok(comp) => match page_size(compressed, comp, cap) {
            Err(e) => Err(e),
            Ok(_) => if start + comp > usize::MAX {
                Err(PqErrorView::Bad("v2 region ovf"@))
            } else if start + comp > file.len() {
                Err(PqErrorView::Bad("v2 page truncated"@))
            } else {
                Ok(file.subrange(start, start + comp))
            },
        },
    }
}

/// The complaint about a page that holds no data.
pub open spec fn page_kind_error() -> PqErrorView {
    PqErrorView::Unsupported("non-V1/V2 data page (index): OBJ-2c"@)
}

/// The values of a flat column's data page at `off`, and the position behind it.
pub open spec fn flat_page_at(
    file: Seq<u8>,
    off: int,
    cc: ColumnChunkView,
    spec: PlainSpec,
    max_def: u32,
    dict: Seq<PqV>,
    cap: int,
) -> Result<(Seq<PqV>, int), PqErrorView> {
    match header_at(file, off, "data page offset past EOF"@) {
        Err(e) => Err(e),
        Ok((h, start)) => {
            let vals = if h.page_type == 0 {
                match v1_payload(
                    file,
                    start,
                    h,
                    cc,
                    SizeWords {
                        compressed: "v1 page compressed"@,
                        uncompressed: "v1 page uncompressed"@,
                    },
                    cap,
                ) {
                    Err(e) => Err(e),
                    Ok((n, payload)) => flat_page(
                        payload,
                        h.dp_encoding,
                        spec,
                        n as nat,
                        max_def,
                        dict,
                    ),
                }
            } else if h.page_type == 3 {
                match v2_region(file, start, h, "v2 page compressed"@, cap) {
                    Err(e) => Err(e),
                    Ok(region) => flat_page_v2(region, h, cc.codec, spec, max_def, dict, cap),
                }
            } else {
                Err(page_kind_error())
            };
            match vals {
                Err(e) => Err(e),
                Ok(v) => Ok((v, start + h.compressed_size)),
            }
        },
    }
}

/// The values of the pages from `off` on, behind those in `have`, until there are `want`.
pub open spec fn flat_pages(
    file: Seq<u8>,
    off: int,
    cc: ColumnChunkView,
    spec: PlainSpec,
    max_def: u32,
    dict: Seq<PqV>,
    want: int,
    have: Seq<PqV>,
    cap: int,
) -> Plain
    decreases file.len() - off,
{
    if have.len() >= want {
        Ok(have)
    } else {
        match flat_page_at(file, off, cc, spec, max_def, dict, cap) {
            Err(e) => Err(e),
            Ok((vals, next)) => if have.len() + vals.len() > want {
                Err(PqErrorView::Bad("data page values exceed chunk num_values"@))
            } else {
                flat_pages(file, next, cc, spec, max_def, dict, want, have + vals, cap)
            },
        }
    }
}

/// The values of a flat column in one row group.
#[verifier::opaque]
pub open spec fn chunk_values(
    file: Seq<u8>,
    cc: ColumnChunkView,
    spec: PlainSpec,
    max_def: u32,
    cap: int,
) -> Plain {
    match chunk_ready(cc) {
        Err(e) => Err(e),
        Ok(_) => match dictionary(
            file,
            cc,
            spec,
            SizeWords {
                compressed: "dict page compressed"@,
                uncompressed: "dict page uncompressed"@,
            },
            cap,
        ) {
            Err(e) => Err(e),
            Ok(dict) => match length_of(cc.num_values as int, "chunk num_values range"@) {
                Err(e) => Err(e),
                Ok(want) => match length_of(
                    cc.data_page_offset as int,
                    "data page offset range"@,
                ) {
                    Err(e) => Err(e),
                    Ok(off) => flat_pages(
                        file,
                        off,
                        cc,
                        spec,
                        max_def,
                        dict,
                        want,
                        seq![],
                        cap,
                    ),
                },
            },
        },
    }
}

/// The levels and the values of a nested page of the second kind with header `h`.
pub open spec fn nested_v2_of(
    region: Seq<u8>,
    h: PageHeader,
    cc: ColumnChunkView,
    spec: PlainSpec,
    max_def: u32,
    max_rep: u32,
    dict: Seq<PqV>,
    cap: int,
) -> Result<Levels, PqErrorView> {
    if h.v2_num_values < 0 {
        Err(PqErrorView::Bad("v2 num_values range"@))
    } else if h.v2_rep_len < 0 {
        Err(PqErrorView::Bad("v2 rep_len range"@))
    } else if h.v2_def_len < 0 {
        Err(PqErrorView::Bad("v2 def_len range"@))
    } else if h.uncompressed_size < 0 {
        Err(PqErrorView::Bad("v2 uncompressed size range"@))
    } else {
        match page_size("nested v2 page uncompressed"@, h.uncompressed_size as int, cap) {
            Err(e) => Err(e),
            Ok(_) => nested_page_v2(
                region,
                h.v2_encoding,
                spec,
                h.v2_num_values as nat,
                max_rep,
                max_def,
                h.v2_rep_len as int,
                h.v2_def_len as int,
                h.v2_is_compressed,
                cc.codec,
                h.uncompressed_size as int,
                dict,
            ),
        }
    }
}

/// The levels and the values of a nested column's data page at `off`, and the position behind it.
pub open spec fn nested_page_at(
    file: Seq<u8>,
    off: int,
    cc: ColumnChunkView,
    spec: PlainSpec,
    max_def: u32,
    max_rep: u32,
    dict: Seq<PqV>,
    cap: int,
) -> Result<(Levels, int), PqErrorView> {
    match header_at(file, off, "data page offset past EOF"@) {
        Err(e) => Err(e),
        Ok((h, start)) => {
            let part = if h.page_type == 0 {
                match v1_payload(
                    file,
                    start,
                    h,
                    cc,
                    SizeWords {
                        compressed: "nested v1 page compressed"@,
                        uncompressed: "nested v1 page uncompressed"@,
                    },
                    cap,
                ) {
                    Err(e) => Err(e),
                    Ok((n, payload)) => nested_page(
                        payload,
                        h.dp_encoding,
                        spec,
                        n as nat,
                        max_rep,
                        max_def,
                        dict,
                    ),
                }
            } else if h.page_type == 3 {
                match v2_region(file, start, h, "nested v2 page compressed"@, cap) {
                    Err(e) => Err(e),
                    Ok(region) => nested_v2_of(region, h, cc, spec, max_def, max_rep, dict, cap),
                }
            } else {
                Err(page_kind_error())
            };
            match part {
                Err(e) => Err(e),
                Ok(l) => Ok((l, start + h.compressed_size)),
            }
        },
    }
}

/// The levels and the values of the pages from `off` on, behind those in `have`, until there are
/// `want` levels.
pub open spec fn nested_pages(
    file: Seq<u8>,
    off: int,
    cc: ColumnChunkView,
    spec: PlainSpec,
    max_def: u32,
    max_rep: u32,
    dict: Seq<PqV>,
    want: int,
    have: Levels,
    cap: int,
) -> Result<Levels, PqErrorView>
    decreases file.len() - off,
{
    if have.0.len() >= want {
        Ok(have)
    } else {
        match nested_page_at(file, off, cc, spec, max_def, max_rep, dict, cap) {
            Err(e) => Err(e),
            Ok((l, next)) => if have.0.len() + l.0.len() > want {
                Err(PqErrorView::Bad("data page (rep,def) pairs exceed chunk num_values"@))
            } else {
                nested_pages(
                    file,
                    next,
                    cc,
                    spec,
                    max_def,
                    max_rep,
                    dict,
                    want,
                    (have.0 + l.0, have.1 + l.1, have.2 + l.2),
                    cap,
                )
            },
        }
    }
}

/// The levels and the values of a nested column's leaf in one row group.
#[verifier::opaque]
pub open spec fn chunk_levels(
    file: Seq<u8>,
    cc: ColumnChunkView,
    spec: PlainSpec,
    max_def: u32,
    max_rep: u32,
    cap: int,
) -> Result<Levels, PqErrorView> {
    match chunk_ready(cc) {
        Err(e) => Err(e),
        Ok(_) => match dictionary(
            file,
            cc,
            spec,
            SizeWords {
                compressed: "nested dict page compressed"@,
                uncompressed: "nested dict page uncompressed"@,
            },
            cap,
        ) {
            Err(e) => Err(e),
            Ok(dict) => match length_of(cc.num_values as int, "chunk num_values range"@) {
                Err(e) => Err(e),
                Ok(want) => match length_of(
                    cc.data_page_offset as int,
                    "data page offset range"@,
                ) {
                    Err(e) => Err(e),
                    Ok(off) => nested_pages(
                        file,
                        off,
                        cc,
                        spec,
                        max_def,
                        max_rep,
                        dict,
                        want,
                        (seq![], seq![], seq![]),
                        cap,
                    ),
                },
            },
        },
    }
}

/// Checks that a chunk's codec and encodings are supported.
fn check_chunk(cc: &ColumnChunk) -> (r: Result<(), PqError>)
    ensures
        match (r, chunk_ready(cc@)) {
            (Ok(_), Ok(_)) => true,
            (Err(x), Err(y)) => x@ == y,
            _ => false,
        },
{
    if !knows_codec(cc.codec) {
        return Err(refuse_codec(cc.codec));
    }
    let mut i: usize = 0;
    while i < cc.encodings.len()
        invariant
            i <= cc.encodings@.len(),
            cc@.encodings == cc.encodings@,
            cc@.codec == cc.codec,
            codec_known(cc.codec),
            forall|j: int| 0 <= j < i ==> encoding_known(#[trigger] cc.encodings@[j]),
        decreases cc.encodings@.len() - i,
    {
        match &cc.encodings[i] {
            Encoding::Other(_) => {
                assert(!encoding_known(cc.encodings@[i as int]));
                return Err(
                    unsupported("non-PLAIN/dictionary encoding (DELTA/BYTE_STREAM_SPLIT): OBJ-2c"),
                );
            },
            _ => {},
        }
        i = i + 1;
    }
    Ok(())
}

/// Reads the page header at `off` of the file, and the position behind it.
fn read_header(file: &[u8], off: usize, past: &str) -> (r: Result<(PageHeader, usize), PqError>)
    ensures
        match (r, header_at(file@, off as int, past@)) {
            (Ok(v), Ok(w)) => v.0 == w.0 && v.1 == w.1 && off < v.1 <= file@.len(),
            (Err(x), Err(y)) => x@ == y,
            _ => false,
        },
{
    assert(file@.len() == file.len());
    if off > file.len() {
        return Err(bad(past));
    }
    let region = slice_subrange(file, off, file.len());
    proof {
        assert(region@ =~= file@.skip(off as int));
    }
    let (h, n) = decode_page_header(region)?;
    Ok((h, off + n))
}

/// Reads the payload of a page behind its header.
fn read_sized_payload(
    file: &[u8],
    start: usize,
    h: &PageHeader,
    cc: &ColumnChunk,
    comp_range: &str,
    uncomp_range: &str,
    compressed: &str,
    uncompressed: &str,
    max_page_size: usize,
) -> (r: Result<Vec<u8>, PqError>)
    ensures
        yields(
            r,
            sized_payload(
                file@,
                start as int,
                *h,
                cc@,
                comp_range@,
                uncomp_range@,
                SizeWords { compressed: compressed@, uncompressed: uncompressed@ },
                max_page_size as int,
            ),
        ),
        r is Ok ==> 0 <= h.compressed_size && start + h.compressed_size <= file@.len(),
{
    let comp: usize = to_length(h.compressed_size as i64, comp_range)?;
    let uncomp: usize = to_length(h.uncompressed_size as i64, uncomp_range)?;
    check_page_size(compressed, comp, max_page_size)?;
    check_page_size(uncompressed, uncomp, max_page_size)?;
    page_payload(file, start, comp, uncomp, cc.codec)
}

/// Reads the dictionary of a chunk.
fn read_dictionary(
    file: &[u8],
    cc: &ColumnChunk,
    spec: PlainSpec,
    compressed: &str,
    uncompressed: &str,
    max_page_size: usize,
) -> (r: Result<Vec<PqValue>, PqError>)
    ensures
        decodes(
            r,
            dictionary(
                file@,
                cc@,
                spec,
                SizeWords { compressed: compressed@, uncompressed: uncompressed@ },
                max_page_size as int,
            ),
        ),
{
    match cc.dictionary_page_offset {
        None => {
            let none: Vec<PqValue> = Vec::new();
            proof {
                assert(values(none@) =~= seq![]);
            }
            Ok(none)
        },
        Some(at) => {
            let off: usize = to_length(at, "dict page offset range")?;
            let (h, start) = read_header(file, off, "dict page offset past EOF")?;
            if h.page_type != 2 {
                return Err(bad("dictionary_page_offset does not point at a DICTIONARY_PAGE"));
            }
            if h.dict_encoding != 0 && h.dict_encoding != 2 {
                return Err(
                    unsupported("dictionary page encoding (not PLAIN/PLAIN_DICTIONARY): OBJ-2c"),
                );
            }
            let n: usize = to_length(h.dict_num_values as i64, "dict num_values range")?;
            let payload = read_sized_payload(
                file,
                start,
                &h,
                cc,
                "dict page comp size range",
                "dict page size range",
                compressed,
                uncompressed,
                max_page_size,
            )?;
            decode_plain(payload.as_slice(), spec, n)
        },
    }
}

/// Reads how many values a data page of the first kind holds, and its payload.
fn read_v1_payload(
    file: &[u8],
    start: usize,
    h: &PageHeader,
    cc: &ColumnChunk,
    compressed: &str,
    uncompressed: &str,
    max_page_size: usize,
) -> (r: Result<(usize, Vec<u8>), PqError>)
    ensures
        match (
            r,
            v1_payload(
                file@,
                start as int,
                *h,
                cc@,
                SizeWords { compressed: compressed@, uncompressed: uncompressed@ },
                max_page_size as int,
            ),
        ) {
            (Ok(v), Ok(w)) => v.0 == w.0 && v.1@ == w.1,
            (Err(x), Err(y)) => x@ == y,
            _ => false,
        },
        r is Ok ==> 0 <= h.compressed_size && start + h.compressed_size <= file@.len(),
{
    let n: usize = to_length(h.dp_num_values as i64, "num_values range")?;
    let payload = read_sized_payload(
        file,
        start,
        h,
        cc,
        "page comp size range",
        "page size range",
        compressed,
        uncompressed,
        max_page_size,
    )?;
    if (h.dp_encoding == 2 || h.dp_encoding == 8) && cc.dictionary_page_offset.is_none() {
        return Err(bad("dictionary-encoded data page without dictionary_page_offset"));
    }
    Ok((n, payload))
}

/// The bytes of a data page of the second kind.
fn read_v2_region<'a>(
    file: &'a [u8],
    start: usize,
    h: &PageHeader,
    compressed: &str,
    max_page_size: usize,
) -> (r: Result<&'a [u8], PqError>)
    ensures
        match (r, v2_region(file@, start as int, *h, compressed@, max_page_size as int)) {
            (Ok(v), Ok(w)) => v@ == w,
            (Err(x), Err(y)) => x@ == y,
            _ => false,
        },
        r is Ok ==> 0 <= h.compressed_size && start + h.compressed_size <= file@.len(),
{
    let comp: usize = to_length(h.compressed_size as i64, "v2 comp size range")?;
    check_page_size(compressed, comp, max_page_size)?;
    let end: usize = match start.checked_add(comp) {
        Some(e) => e,
        None => {
            return Err(bad("v2 region ovf"));
        },
    };
    if end > file.len() {
        return Err(bad("v2 page truncated"));
    }
    Ok(slice_subrange(file, start, end))
}

/// Reads the values of a flat column's data page at `off`, and the position behind it.
fn read_flat_page(
    file: &[u8],
    off: usize,
    cc: &ColumnChunk,
    spec: PlainSpec,
    max_def_level: u32,
    dict: &[PqValue],
    max_page_size: usize,
) -> (r: Result<(Vec<PqValue>, usize), PqError>)
    ensures
        match (
            r,
            flat_page_at(
                file@,
                off as int,
                cc@,
                spec,
                max_def_level,
                values(dict@),
                max_page_size as int,
            ),
        ) {
            (Ok(v), Ok(w)) => values(v.0@) == w.0 && v.1 == w.1 && off < v.1 <= file@.len(),
            (Err(x), Err(y)) => x@ == y,
            _ => false,
        },
{
    let (h, start) = read_header(file, off, "data page offset past EOF")?;
    assert(file@.len() == file.len());
    let vals: Vec<PqValue> = if h.page_type == 0 {
        let (n, payload) = read_v1_payload(
            file,
            start,
            &h,
            cc,
            "v1 page compressed",
            "v1 page uncompressed",
            max_page_size,
        )?;
        decode_page(payload.as_slice(), h.dp_encoding, spec, n, max_def_level, dict)?
    } else if h.page_type == 3 {
        let region = read_v2_region(file, start, &h, "v2 page compressed", max_page_size)?;
        decode_data_page_v2(region, &h, cc.codec, spec, max_def_level, dict, max_page_size)?
    } else {
        return Err(unsupported("non-V1/V2 data page (index): OBJ-2c"));
    };
    Ok((vals, start + h.compressed_size as usize))
}

/// Appends values.
pub fn append_values(out: &mut Vec<PqValue>, more: Vec<PqValue>)
    ensures
        values(final(out)@) == values(old(out)@) + values(more@),
        final(out)@.len() == old(out)@.len() + more@.len(),
{
    let ghost before = out@;
    let mut more = more;
    let ghost added = more@;
    out.append(&mut more);
    proof {
        assert(values(out@) =~= values(before) + values(added));
    }
}

/// Reads the values of a flat column in one row group.
pub fn read_chunk_values(
    file: &[u8],
    cc: &ColumnChunk,
    spec: PlainSpec,
    max_def_level: u32,
    max_page_size: usize,
) -> (r: Result<Vec<PqValue>, PqError>)
    ensures
        decodes(r, chunk_values(file@, cc@, spec, max_def_level, max_page_size as int)),
        r matches Ok(v) ==> v@.len() == cc.num_values,
{
    reveal(chunk_values);
    check_chunk(cc)?;
    let dict = read_dictionary(
        file,
        cc,
        spec,
        "dict page compressed",
        "dict page uncompressed",
        max_page_size,
    )?;
    let want: usize = to_length(cc.num_values, "chunk num_values range")?;
    let mut off: usize = to_length(cc.data_page_offset, "data page offset range")?;
    let mut out: Vec<PqValue> = Vec::new();
    let ghost whole = chunk_values(file@, cc@, spec, max_def_level, max_page_size as int);
    proof {
        assert(values(out@) =~= seq![]);
    }
    while out.len() < want
        invariant
            out@.len() <= want,
            whole == chunk_values(file@, cc@, spec, max_def_level, max_page_size as int),
            whole == flat_pages(
                file@,
                off as int,
                cc@,
                spec,
                max_def_level,
                values(dict@),
                want as int,
                values(out@),
                max_page_size as int,
            ),
        decreases file@.len() - off,
    {
        let (vals, next) = read_flat_page(
            file,
            off,
            cc,
            spec,
            max_def_level,
            dict.as_slice(),
            max_page_size,
        )?;
        assert(values(out@).len() == out@.len());
        assert(values(vals@).len() == vals@.len());
        if vals.len() > want - out.len() {
            return Err(bad("data page values exceed chunk num_values"));
        }
        append_values(&mut out, vals);
        off = next;
    }
    assert(values(out@).len() == out@.len());
    Ok(out)
}

/// Reads a nested page of the second kind with header `h`.
fn read_nested_v2(
    region: &[u8],
    h: &PageHeader,
    cc: &ColumnChunk,
    spec: PlainSpec,
    max_def_level: u32,
    max_rep_level: u32,
    dict: &[PqValue],
    max_page_size: usize,
) -> (r: Result<(Vec<u32>, Vec<u32>, Vec<PqValue>), PqError>)
    ensures
        gives_levels(
            r,
            nested_v2_of(
                region@,
                *h,
                cc@,
                spec,
                max_def_level,
                max_rep_level,
                values(dict@),
                max_page_size as int,
            ),
        ),
        r matches Ok(v) ==> v.0@.len() == v.1@.len(),
{
    if h.v2_num_values < 0 {
        return Err(bad("v2 num_values range"));
    }
    if h.v2_rep_len < 0 {
        return Err(bad("v2 rep_len range"));
    }
    if h.v2_def_len < 0 {
        return Err(bad("v2 def_len range"));
    }
    if h.uncompressed_size < 0 {
        return Err(bad("v2 uncompressed size range"));
    }
    check_page_size("nested v2 page uncompressed", h.uncompressed_size as usize, max_page_size)?;
    decode_data_page_v2_nested(
        region,
        h.v2_encoding,
        spec,
        h.v2_num_values as usize,
        max_rep_level,
        max_def_level,
        h.v2_rep_len as u32,
        h.v2_def_len as u32,
        h.v2_is_compressed,
        cc.codec,
        h.uncompressed_size as u32,
        dict,
    )
}

/// The levels, the values and the end of a page.
type NestedPage = (Vec<u32>, Vec<u32>, Vec<PqValue>, usize);

/// Reads a nested column's data page at `off`.
fn read_nested_page(
    file: &[u8],
    off: usize,
    cc: &ColumnChunk,
    spec: PlainSpec,
    max_def_level: u32,
    max_rep_level: u32,
    dict: &[PqValue],
    max_page_size: usize,
) -> (r: Result<NestedPage, PqError>)
    ensures
        match (
            r,
            nested_page_at(
                file@,
                off as int,
                cc@,
                spec,
                max_def_level,
                max_rep_level,
                values(dict@),
                max_page_size as int,
            ),
        ) {
            (Ok(v), Ok(w)) => v.0@ == w.0.0 && v.1@ == w.0.1 && values(v.2@) == w.0.2 && v.3 == w.1
                && off < v.3 <= file@.len() && v.0@.len() == v.1@.len(),
            (Err(x), Err(y)) => x@ == y,
            _ => false,
        },
{
    let (h, start) = read_header(file, off, "data page offset past EOF")?;
    assert(file@.len() == file.len());
    if h.page_type == 0 {
        let (n, payload) = read_v1_payload(
            file,
            start,
            &h,
            cc,
            "nested v1 page compressed",
            "nested v1 page uncompressed",
            max_page_size,
        )?;
        let (rep, def, vals) = decode_page_v1_nested(
            payload.as_slice(),
            h.dp_encoding,
            spec,
            n,
            max_rep_level,
            max_def_level,
            dict,
        )?;
        Ok((rep, def, vals, start + h.compressed_size as usize))
    } else if h.page_type == 3 {
        let region = read_v2_region(file, start, &h, "nested v2 page compressed", max_page_size)?;
        let (rep, def, vals) = read_nested_v2(
            region,
            &h,
            cc,
            spec,
            max_def_level,
            max_rep_level,
            dict,
            max_page_size,
        )?;
        Ok((rep, def, vals, start + h.compressed_size as usize))
    } else {
        Err(unsupported("non-V1/V2 data page (index): OBJ-2c"))
    }
}

/// Appends levels.
fn append_levels(out: &mut Vec<u32>, more: Vec<u32>)
    ensures
        final(out)@ == old(out)@ + more@,
{
    let mut more = more;
    out.append(&mut more);
}

/// Reads the levels and the values of a nested column's leaf in one row group.
pub fn read_chunk_levels_and_values(
    file: &[u8],
    cc: &ColumnChunk,
    spec: PlainSpec,
    max_def_level: u32,
    max_rep_level: u32,
    max_page_size: usize,
) -> (r: Result<(Vec<u32>, Vec<u32>, Vec<PqValue>), PqError>)
    ensures
        gives_levels(
            r,
            chunk_levels(
                file@,
                cc@,
                spec,
                max_def_level,
                max_rep_level,
                max_page_size as int,
            ),
        ),
        r matches Ok(v) ==> v.0@.len() == cc.num_values && v.1@.len() == cc.num_values,
{
    reveal(chunk_levels);
    check_chunk(cc)?;
    let dict = read_dictionary(
        file,
        cc,
        spec,
        "nested dict page compressed",
        "nested dict page uncompressed",
        max_page_size,
    )?;
    let want: usize = to_length(cc.num_values, "chunk num_values range")?;
    let mut off: usize = to_length(cc.data_page_offset, "data page offset range")?;
    let mut rep: Vec<u32> = Vec::new();
    let mut def: Vec<u32> = Vec::new();
    let mut vals: Vec<PqValue> = Vec::new();
    let ghost whole = chunk_levels(
        file@,
        cc@,
        spec,
        max_def_level,
        max_rep_level,
        max_page_size as int,
    );
    proof {
        assert(rep@ =~= seq![]);
        assert(def@ =~= seq![]);
        assert(values(vals@) =~= seq![]);
    }
    while rep.len() < want
        invariant
            rep@.len() <= want,
            rep@.len() == def@.len(),
            whole == chunk_levels(
                file@,
                cc@,
                spec,
                max_def_level,
                max_rep_level,
                max_page_size as int,
            ),
            whole == nested_pages(
                file@,
                off as int,
                cc@,
                spec,
                max_def_level,
                max_rep_level,
                values(dict@),
                want as int,
                (rep@, def@, values(vals@)),
                max_page_size as int,
            ),
        decreases file@.len() - off,
    {
        let (r, d, v, next) = read_nested_page(
            file,
            off,
            cc,
            spec,
            max_def_level,
            max_rep_level,
            dict.as_slice(),
            max_page_size,
        )?;
        if r.len() > want - rep.len() {
            return Err(bad("data page (rep,def) pairs exceed chunk num_values"));
        }
        append_levels(&mut rep, r);
        append_levels(&mut def, d);
        append_values(&mut vals, v);
        off = next;
    }
    Ok((rep, def, vals))
}

} // verus!
