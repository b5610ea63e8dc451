//! How many values come out: as many as a page and a chunk say.
use vstd::prelude::*;

use crate::chunk::{
    chunk_levels, chunk_values, dictionary, flat_page_at, flat_pages, header_at, nested_page_at,
    nested_pages, nested_v2_of, v1_payload, v2_region, SizeWords,
};
use crate::laws::pages::{dictionary_words, nested_dictionary_words};
use crate::meta::{Codec, ColumnChunkView, PageHeader};
use crate::page::{
    at_max, encoded_values, flat_page, flat_page_v2, level_width, levels_v1, levels_v2, nested_page,
    nested_page_v2, nested_v2_words, v2_levels, v2_section, v2_words, Levels,
};
use crate::plain::{lemma_plain_len, PlainSpec};
use crate::rle::{hybrid, hybrid_at, prefixed_levels, run_at};
use crate::value::PqV;

verus! {

proof fn lemma_run(d: Seq<u8>, p: int, w: nat, need: nat)
    requires
        0 <= p <= d.len(),
    ensures
        run_at(d, p, w, need) matches Ok((v, e)) ==> p < e <= d.len() && v.len() <= need,
{
}

proof fn lemma_hybrid_at(d: Seq<u8>, p: int, w: nat, need: nat)
    requires
        0 <= p <= d.len(),
    ensures
        hybrid_at(d, p, w, need) matches Ok(v) ==> v.len() == need,
    decreases d.len() - p,
{
    if need > 0 {
        lemma_run(d, p, w, need);
        match run_at(d, p, w, need) {
            Ok((v, e)) => {
                lemma_hybrid_at(d, e, w, (need - v.len()) as nat);
            },
            Err(_) => {},
        }
    }
}

/// A hybrid stream gives as many values as are asked for.
pub proof fn law_hybrid_len(d: Seq<u8>, w: nat, n: nat)
    ensures
        hybrid(d, w, n) matches Ok(v) ==> v.len() == n,
        prefixed_levels(d, w, n) matches Ok((v, _)) ==> v.len() == n,
{
    lemma_hybrid_at(d, 0, w, n);
    if d.len() >= 4 {
        let end = 4 + crate::bytes::le(d.subrange(0, 4));
        if end <= d.len() {
            lemma_hybrid_at(d.subrange(4, end as int), 0, w, n);
        }
    }
}

/// Whatever the encoding, as many values come out as are asked for.
pub proof fn law_encoded_len(
    payload: Seq<u8>,
    encoding: i32,
    spec: PlainSpec,
    n: nat,
    dict: Seq<PqV>,
)
    ensures
        encoded_values(payload, encoding, spec, n, dict) matches Ok(v) ==> v.len() == n,
{
    lemma_plain_len(payload, spec, n);
    if payload.len() > 0 {
        law_hybrid_len(payload.skip(1), payload[0] as nat, n);
    }
}

/// A page of a flat column gives as many values as its header says.
pub proof fn law_flat_len(
    payload: Seq<u8>,
    encoding: i32,
    spec: PlainSpec,
    n: nat,
    max_def: u32,
    dict: Seq<PqV>,
)
    ensures
        flat_page(payload, encoding, spec, n, max_def, dict) matches Ok(v) ==> v.len() == n,
{
    reveal(flat_page);
    law_encoded_len(payload, encoding, spec, n, dict);
    law_hybrid_len(payload, level_width(max_def), n);
}

proof fn lemma_at_max(levels: Seq<u32>, max: u32)
    ensures
        at_max(levels, max) <= levels.len(),
    decreases levels.len(),
{
    if levels.len() > 0 {
        lemma_at_max(levels.drop_last(), max);
    }
}

proof fn lemma_at_max_add(a: Seq<u32>, b: Seq<u32>, max: u32)
    ensures
        at_max(a + b, max) == at_max(a, max) + at_max(b, max),
    decreases b.len(),
{
    if b.len() == 0 {
        assert(a + b =~= a);
    } else {
        assert((a + b).drop_last() =~= a + b.drop_last());
        lemma_at_max_add(a, b.drop_last(), max);
    }
}

/// Whether there are `n` levels of both kinds, and a value for each that says that one is there.
pub open spec fn counted(l: Levels, n: nat, max_def: u32) -> bool {
    &&& l.0.len() == n
    &&& l.1.len() == n
    &&& l.2.len() == at_max(l.1, max_def)
    &&& l.2.len() <= n
}

/// A page of a nested column gives as many levels of both kinds as its header says, and a value for
/// each definition level that says that one is there.
pub proof fn law_nested_len(
    payload: Seq<u8>,
    encoding: i32,
    spec: PlainSpec,
    n: nat,
    max_rep: u32,
    max_def: u32,
    dict: Seq<PqV>,
)
    ensures
        nested_page(payload, encoding, spec, n, max_rep, max_def, dict) matches Ok(l) ==> counted(
            l,
            n,
            max_def,
        ),
{
    reveal(nested_page);
    lemma_levels_v1(payload, max_rep, n, "nested v1 rep"@);
    match levels_v1(payload, max_rep, n, "nested v1 rep"@) {
        Ok((_, p)) => {
            let rest = payload.skip(p);
            lemma_levels_v1(rest, max_def, n, "nested v1 def"@);
            match levels_v1(rest, max_def, n, "nested v1 def"@) {
                Ok((def, q)) => {
                    law_encoded_len(rest.skip(q), encoding, spec, at_max(def, max_def), dict);
                    lemma_at_max(def, max_def);
                },
                Err(_) => {},
            }
        },
        Err(_) => {},
    }
}

proof fn lemma_levels_v1(payload: Seq<u8>, max: u32, n: nat, kind: Seq<char>)
    ensures
        levels_v1(payload, max, n, kind) matches Ok((l, _)) ==> l.len() == n,
{
    law_hybrid_len(payload, level_width(max), n);
}

proof fn lemma_levels_v2(bytes: Seq<u8>, max: u32, n: nat, kind: Seq<char>, surplus: Seq<char>)
    ensures
        levels_v2(bytes, max, n, kind, surplus) matches Ok(l) ==> l.len() == n,
{
    law_hybrid_len(bytes, level_width(max), n);
}

/// A page of the second kind of a flat column gives as many values as its header says.
pub proof fn law_flat_v2_len(
    region: Seq<u8>,
    h: PageHeader,
    codec: Codec,
    spec: PlainSpec,
    max_def: u32,
    dict: Seq<PqV>,
    cap: int,
)
    ensures
        flat_page_v2(region, h, codec, spec, max_def, dict, cap) matches Ok(v) ==> v.len()
            == h.v2_num_values,
{
    reveal(flat_page_v2);
    if flat_page_v2(region, h, codec, spec, max_def, dict, cap) is Ok {
        let n = h.v2_num_values as nat;
        let k = h.v2_def_len as int;
        let levels = region.take(k);
        law_hybrid_len(levels, level_width(max_def), n);
        let (_, present) = v2_levels(levels, n, h.v2_num_nulls as int, max_def)->Ok_0;
        let body = v2_section(
            codec,
            h.v2_is_compressed,
            region.skip(k),
            (h.uncompressed_size - k) as nat,
            v2_words(),
            "v2 raw values length mismatch"@,
        )->Ok_0;
        law_encoded_len(body, h.v2_encoding, spec, present, dict);
    }
}

/// A page of the second kind of a nested column gives as many levels of both kinds as its header
/// says, and a value for each definition level that says that one is there.
pub proof fn law_nested_v2_len(
    region: Seq<u8>,
    h: PageHeader,
    cc: ColumnChunkView,
    spec: PlainSpec,
    max_def: u32,
    max_rep: u32,
    dict: Seq<PqV>,
    cap: int,
)
    ensures
        nested_v2_of(region, h, cc, spec, max_def, max_rep, dict, cap) matches Ok(l) ==> counted(
            l,
            h.v2_num_values as nat,
            max_def,
        ),
{
    reveal(nested_page_v2);
    if nested_v2_of(region, h, cc, spec, max_def, max_rep, dict, cap) is Ok {
        let n = h.v2_num_values as nat;
        let a = h.v2_rep_len as int;
        let end = a + h.v2_def_len;
        let rep_bytes = region.take(a);
        let def_bytes = region.subrange(a, end);
        let rep_words = ("nested v2 rep"@, "nested v2 rep_len non-zero for max_rep_level=0"@);
        let def_words = ("nested v2 def"@, "nested v2 def_len non-zero for max_def_level=0"@);
        lemma_levels_v2(rep_bytes, max_rep, n, rep_words.0, rep_words.1);
        lemma_levels_v2(def_bytes, max_def, n, def_words.0, def_words.1);
        let def = levels_v2(def_bytes, max_def, n, def_words.0, def_words.1)->Ok_0;
        lemma_at_max(def, max_def);
        let body = v2_section(
            cc.codec,
            h.v2_is_compressed,
            region.skip(end),
            (h.uncompressed_size - end) as nat,
            nested_v2_words(),
            "nested v2 raw values length mismatch"@,
        )->Ok_0;
        law_encoded_len(body, h.v2_encoding, spec, at_max(def, max_def), dict);
    }
}

/// How many values the header of a data page says it has.
pub open spec fn count_of(h: PageHeader) -> int {
    if h.page_type == 0 {
        h.dp_num_values as int
    } else {
        h.v2_num_values as int
    }
}

/// A data page of a nested column gives as many levels of both kinds as its header says, and a value
/// for each definition level that says that one is there.
pub proof fn law_nested_page_len(
    file: Seq<u8>,
    off: int,
    cc: ColumnChunkView,
    spec: PlainSpec,
    max_def: u32,
    max_rep: u32,
    dict: Seq<PqV>,
    cap: int,
)
    ensures
        nested_page_at(file, off, cc, spec, max_def, max_rep, dict, cap) matches Ok((l, _))
            ==> counted(
            l,
            count_of(header_at(file, off, "data page offset past EOF"@)->Ok_0.0) as nat,
            max_def,
        ),
{
    if nested_page_at(file, off, cc, spec, max_def, max_rep, dict, cap) is Ok {
        let (h, start) = header_at(file, off, "data page offset past EOF"@)->Ok_0;
        if h.page_type == 0 {
            let w = SizeWords {
                compressed: "nested v1 page compressed"@,
                uncompressed: "nested v1 page uncompressed"@,
            };
            let (n, payload) = v1_payload(file, start, h, cc, w, cap)->Ok_0;
            law_nested_len(payload, h.dp_encoding, spec, n as nat, max_rep, max_def, dict);
        } else {
            let region = v2_region(file, start, h, "nested v2 page compressed"@, cap)->Ok_0;
            law_nested_v2_len(region, h, cc, spec, max_def, max_rep, dict, cap);
        }
    }
}

/// A data page of a flat column gives as many values as its header says.
pub proof fn law_flat_page_len(
    file: Seq<u8>,
    off: int,
    cc: ColumnChunkView,
    spec: PlainSpec,
    max_def: u32,
    dict: Seq<PqV>,
    cap: int,
)
    ensures
        flat_page_at(file, off, cc, spec, max_def, dict, cap) matches Ok((v, _)) ==> v.len()
            == count_of(header_at(file, off, "data page offset past EOF"@)->Ok_0.0),
{
    if flat_page_at(file, off, cc, spec, max_def, dict, cap) is Ok {
        let (h, start) = header_at(file, off, "data page offset past EOF"@)->Ok_0;
        if h.page_type == 0 {
            let w = SizeWords {
                compressed: "v1 page compressed"@,
                uncompressed: "v1 page uncompressed"@,
            };
            let (n, payload) = v1_payload(file, start, h, cc, w, cap)->Ok_0;
            law_flat_len(payload, h.dp_encoding, spec, n as nat, max_def, dict);
        } else {
            let region = v2_region(file, start, h, "v2 page compressed"@, cap)->Ok_0;
            law_flat_v2_len(region, h, cc.codec, spec, max_def, dict, cap);
        }
    }
}

proof fn lemma_flat_pages_len(
    file: Seq<u8>,
    off: int,
    cc: ColumnChunkView,
    spec: PlainSpec,
    max_def: u32,
    dict: Seq<PqV>,
    want: int,
    have: Seq<PqV>,
    cap: int,
)
    requires
        have.len() <= want,
    ensures
        flat_pages(file, off, cc, spec, max_def, dict, want, have, cap) matches Ok(v) ==> v.len()
            == want,
    decreases file.len() - off,
{
    if have.len() < want {
        match flat_page_at(file, off, cc, spec, max_def, dict, cap) {
            Ok((vals, next)) => {
                if have.len() + vals.len() <= want {
                    lemma_flat_pages_len(
                        file,
                        next,
                        cc,
                        spec,
                        max_def,
                        dict,
                        want,
                        have + vals,
                        cap,
                    );
                }
            },
            Err(_) => {},
        }
    }
}

proof fn lemma_nested_pages_len(
    file: Seq<u8>,
    off: int,
    cc: ColumnChunkView,
    spec: PlainSpec,
    max_def: u32,
    max_rep: u32,
    dict: Seq<PqV>,
    want: int,
    have: Levels,
    cap: int,
)
    requires
        have.0.len() <= want,
        have.0.len() == have.1.len(),
        have.2.len() == at_max(have.1, max_def),
    ensures
        nested_pages(file, off, cc, spec, max_def, max_rep, dict, want, have, cap) matches Ok(l)
            ==> l.0.len() == want && l.1.len() == want && l.2.len() == at_max(l.1, max_def),
    decreases file.len() - off,
{
    if have.0.len() < want {
        law_nested_page_len(file, off, cc, spec, max_def, max_rep, dict, cap);
        match nested_page_at(file, off, cc, spec, max_def, max_rep, dict, cap) {
            Ok((l, next)) => {
                if have.0.len() + l.0.len() <= want {
                    lemma_at_max_add(have.1, l.1, max_def);
                    lemma_nested_pages_len(
                        file,
                        next,
                        cc,
                        spec,
                        max_def,
                        max_rep,
                        dict,
                        want,
                        (have.0 + l.0, have.1 + l.1, have.2 + l.2),
                        cap,
                    );
                }
            },
            Err(_) => {},
        }
    }
}

/// A chunk gives as many values, or levels of both kinds, as it says; and as many values as there are
/// definition levels that say that one is there.
pub proof fn law_chunk_len(
    file: Seq<u8>,
    cc: ColumnChunkView,
    spec: PlainSpec,
    max_def: u32,
    max_rep: u32,
    cap: int,
)
    ensures
        chunk_values(file, cc, spec, max_def, cap) matches Ok(v) ==> v.len() == cc.num_values,
        chunk_levels(file, cc, spec, max_def, max_rep, cap) matches Ok(l) ==> l.0.len()
            == cc.num_values && l.1.len() == cc.num_values && l.2.len() == at_max(l.1, max_def),
{
    reveal(chunk_values);
    reveal(chunk_levels);
    let off = cc.data_page_offset as int;
    let want = cc.num_values as int;
    if want >= 0 {
        match dictionary(file, cc, spec, dictionary_words(), cap) {
            Ok(dict) => {
                lemma_flat_pages_len(file, off, cc, spec, max_def, dict, want, seq![], cap);
            },
            Err(_) => {},
        }
        match dictionary(file, cc, spec, nested_dictionary_words(), cap) {
            Ok(dict) => {
                let none = (seq![], seq![], seq![]);
                lemma_nested_pages_len(
                    file,
                    off,
                    cc,
                    spec,
                    max_def,
                    max_rep,
                    dict,
                    want,
                    none,
                    cap,
                );
            },
            Err(_) => {},
        }
    }
}

} // verus!
