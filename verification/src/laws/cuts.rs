//! Records depend on their own bytes alone: what follows them does not matter, and cut short they
//! are not read.
use vstd::prelude::*;

use crate::error::PqErrorView;
use crate::meta::{
    blank_header, data_header_field_at, data_header_fields_at, dict_header_field_at,
    dict_header_fields_at, header_field_at, header_fields_at, page_header_of, v2_header_field_at,
    v2_header_fields_at, PageHeader,
};
use crate::thrift::{
    binary_at, byte_at, ctype, field_at, i32_at, ivarint_at, list_header_at, skip_at,
    skip_fields_at, skip_many_at, take_at, uvarint_at, Field, Parsed,
};
use crate::varint::{continuation, varint_at, VarintView};

verus! {

/// Whether the first `k` bytes of both are the same.
pub open spec fn agree(b: Seq<u8>, c: Seq<u8>, k: int) -> bool {
    &&& 0 <= k <= b.len()
    &&& k <= c.len()
    &&& forall|i: int| 0 <= i < k ==> #[trigger] b[i] == c[i]
}

/// What is read at `p` of `b` is read at `p` of `c` too where it ends within the first `k` bytes, which
/// are the same in both; where it does not and `c` ends there, `c` gives an error.
pub open spec fn cut<T>(
    b: Seq<u8>,
    c: Seq<u8>,
    k: int,
    p: int,
    x: Parsed<T>,
    y: Parsed<T>,
) -> bool {
    x matches Ok((_, e)) ==> {
        &&& p <= e <= b.len()
        &&& e <= k ==> y == x
        &&& (k < e && c.len() == k) ==> (y matches Err(PqErrorView::Bad(_)))
    }
}

/// The same of a value that is passed over.
pub open spec fn cut_skip(
    b: Seq<u8>,
    c: Seq<u8>,
    k: int,
    p: int,
    x: Result<int, PqErrorView>,
    y: Result<int, PqErrorView>,
) -> bool {
    x matches Ok(e) ==> {
        &&& p <= e <= b.len()
        &&& e <= k ==> y == x
        &&& (k < e && c.len() == k) ==> (y matches Err(PqErrorView::Bad(_)))
    }
}

proof fn lemma_continuation(b: Seq<u8>, c: Seq<u8>, k: int, p: int)
    requires
        agree(b, c, k),
        0 <= p <= k,
    ensures
        p + continuation(b, p) <= b.len(),
        p + continuation(b, p) < k ==> continuation(c, p) == continuation(b, p),
        p + continuation(b, p) >= k && c.len() == k ==> continuation(c, p) == k - p,
    decreases k - p,
{
    if p < k {
        assert(b[p] == c[p]);
        if b[p] >= 128 {
            lemma_continuation(b, c, k, p + 1);
        }
    } else {
        lemma_continuation_end(b, p);
    }
}

proof fn lemma_continuation_end(b: Seq<u8>, p: int)
    requires
        0 <= p <= b.len(),
    ensures
        p + continuation(b, p) <= b.len(),
    decreases b.len() - p,
{
    if p < b.len() && b[p] >= 128 {
        lemma_continuation_end(b, p + 1);
    }
}

proof fn lemma_uvarint(b: Seq<u8>, c: Seq<u8>, k: int, p: int)
    requires
        agree(b, c, k),
        0 <= p <= k,
    ensures
        cut(b, c, k, p, uvarint_at(b, p), uvarint_at(c, p)),
        cut(b, c, k, p, ivarint_at(b, p), ivarint_at(c, p)),
        uvarint_at(b, p) matches Ok((_, e)) ==> p < e,
{
    lemma_continuation(b, c, k, p);
    let n = continuation(b, p);
    match varint_at(b, p, 10) {
        VarintView::Value { value, end } => {
            if end <= k {
                assert(b.subrange(p, end) =~= c.subrange(p, end));
            }
        },
        _ => {},
    }
}

proof fn lemma_take(b: Seq<u8>, c: Seq<u8>, k: int, p: int, n: int)
    requires
        agree(b, c, k),
        0 <= p <= k,
        0 <= n,
    ensures
        cut(b, c, k, p, take_at(b, p, n), take_at(c, p, n)),
{
    if p + n <= k {
        assert(b.subrange(p, p + n) =~= c.subrange(p, p + n));
    }
}

proof fn lemma_binary(b: Seq<u8>, c: Seq<u8>, k: int, p: int, range: Seq<char>)
    requires
        agree(b, c, k),
        0 <= p <= k,
    ensures
        cut(b, c, k, p, binary_at(b, p, range), binary_at(c, p, range)),
{
    lemma_uvarint(b, c, k, p);
    match uvarint_at(b, p) {
        Ok((n, e)) => {
            if e <= k {
                lemma_take(b, c, k, e, n as int);
            }
        },
        Err(_) => {},
    }
}

proof fn lemma_byte(b: Seq<u8>, c: Seq<u8>, k: int, p: int)
    requires
        agree(b, c, k),
        0 <= p <= k,
    ensures
        cut(b, c, k, p, byte_at(b, p), byte_at(c, p)),
{
    if p < k {
        assert(b[p] == c[p]);
    }
}

proof fn lemma_field(b: Seq<u8>, c: Seq<u8>, k: int, p: int, last: i16)
    requires
        agree(b, c, k),
        0 <= p <= k,
    ensures
        cut(b, c, k, p, field_at(b, p, last), field_at(c, p, last)),
        field_at(b, p, last) matches Ok((_, e)) ==> p < e,
{
    lemma_byte(b, c, k, p);
    if p < b.len() {
        if p < k {
            lemma_uvarint(b, c, k, p + 1);
        } else {
            lemma_uvarint(b, b, b.len() as int, p + 1);
        }
    }
}

proof fn lemma_list_header(b: Seq<u8>, c: Seq<u8>, k: int, p: int)
    requires
        agree(b, c, k),
        0 <= p <= k,
    ensures
        cut(b, c, k, p, list_header_at(b, p), list_header_at(c, p)),
        list_header_at(b, p) matches Ok((_, e)) ==> p < e,
{
    lemma_byte(b, c, k, p);
    if p < b.len() {
        if p < k {
            lemma_uvarint(b, c, k, p + 1);
        } else {
            lemma_uvarint(b, b, b.len() as int, p + 1);
        }
    }
}

proof fn lemma_i32(b: Seq<u8>, c: Seq<u8>, k: int, p: int, ct: u8)
    requires
        agree(b, c, k),
        0 <= p <= k,
    ensures
        cut(b, c, k, p, i32_at(b, p, ct), i32_at(c, p, ct)),
{
    lemma_uvarint(b, c, k, p);
}

proof fn lemma_skip(b: Seq<u8>, c: Seq<u8>, k: int, p: int, ct: u8)
    requires
        agree(b, c, k),
        0 <= p <= k,
    ensures
        cut_skip(b, c, k, p, skip_at(b, p, ct), skip_at(c, p, ct)),
    decreases b.len() - p, 1int, 0int,
{
    lemma_uvarint(b, c, k, p);
    lemma_take(b, c, k, p, 8);
    lemma_binary(b, c, k, p, "skip bin len"@);
    if ct == ctype::LIST || ct == ctype::SET {
        lemma_list_header(b, c, k, p);
        match list_header_at(b, p) {
            Ok((h, e)) => {
                if e <= k {
                    lemma_skip_many(b, c, k, e, h.0, h.1 as nat);
                } else {
                    lemma_skip_many(b, b, b.len() as int, e, h.0, h.1 as nat);
                }
            },
            Err(_) => {},
        }
    } else if ct == ctype::STRUCT {
        lemma_skip_fields(b, c, k, p, 0);
    }
}

proof fn lemma_skip_many(b: Seq<u8>, c: Seq<u8>, k: int, p: int, ct: u8, count: nat)
    requires
        agree(b, c, k),
        0 <= p <= k,
    ensures
        cut_skip(b, c, k, p, skip_many_at(b, p, ct, count), skip_many_at(c, p, ct, count)),
    decreases b.len() - p, 2int, count,
{
    if count > 0 {
        lemma_skip(b, c, k, p, ct);
        match skip_at(b, p, ct) {
            Ok(e) => {
                if e <= k {
                    lemma_skip_many(b, c, k, e, ct, (count - 1) as nat);
                } else {
                    lemma_skip_many(b, b, b.len() as int, e, ct, (count - 1) as nat);
                }
            },
            Err(_) => {},
        }
    }
}

proof fn lemma_skip_fields(b: Seq<u8>, c: Seq<u8>, k: int, p: int, last: i16)
    requires
        agree(b, c, k),
        0 <= p <= k,
    ensures
        cut_skip(b, c, k, p, skip_fields_at(b, p, last), skip_fields_at(c, p, last)),
    decreases b.len() - p, 0int, 0int,
{
    lemma_field(b, c, k, p, last);
    match field_at(b, p, last) {
        Ok((Some(f), e)) => {
            if e <= k {
                lemma_skip(b, c, k, e, f.ctype);
            } else {
                lemma_skip(b, b, b.len() as int, e, f.ctype);
            }
            match skip_at(b, e, f.ctype) {
                Ok(e2) => {
                    if e2 <= k {
                        lemma_skip_fields(b, c, k, e2, f.id);
                    } else {
                        lemma_skip_fields(b, b, b.len() as int, e2, f.id);
                    }
                },
                Err(_) => {},
            }
        },
        _ => {},
    }
}

proof fn lemma_data_header_field(b: Seq<u8>, c: Seq<u8>, k: int, p: int, f: Field, acc: PageHeader)
    requires
        agree(b, c, k),
        0 <= p <= k,
    ensures
        cut(b, c, k, p, data_header_field_at(b, p, f, acc), data_header_field_at(c, p, f, acc)),
{
    lemma_i32(b, c, k, p, f.ctype);
    lemma_skip(b, c, k, p, f.ctype);
}

proof fn lemma_data_header_fields(b: Seq<u8>, c: Seq<u8>, k: int, p: int, last: i16, acc: PageHeader)
    requires
        agree(b, c, k),
        0 <= p <= k,
    ensures
        cut(b, c, k, p, data_header_fields_at(b, p, last, acc), data_header_fields_at(c, p, last, acc)),
        data_header_fields_at(b, p, last, acc) matches Ok((_, e)) ==> p < e,
    decreases b.len() - p,
{
    lemma_field(b, c, k, p, last);
    match field_at(b, p, last) {
        Ok((Some(f), e)) => {
            if e <= k {
                lemma_data_header_field(b, c, k, e, f, acc);
            } else {
                lemma_data_header_field(b, b, b.len() as int, e, f, acc);
            }
            match data_header_field_at(b, e, f, acc) {
                Ok((acc2, e2)) => {
                    if e2 <= k {
                        lemma_data_header_fields(b, c, k, e2, f.id, acc2);
                    } else {
                        lemma_data_header_fields(b, b, b.len() as int, e2, f.id, acc2);
                    }
                },
                Err(_) => {},
            }
        },
        _ => {},
    }
}

proof fn lemma_dict_header_field(b: Seq<u8>, c: Seq<u8>, k: int, p: int, f: Field, acc: PageHeader)
    requires
        agree(b, c, k),
        0 <= p <= k,
    ensures
        cut(b, c, k, p, dict_header_field_at(b, p, f, acc), dict_header_field_at(c, p, f, acc)),
{
    lemma_i32(b, c, k, p, f.ctype);
    lemma_skip(b, c, k, p, f.ctype);
}

proof fn lemma_dict_header_fields(b: Seq<u8>, c: Seq<u8>, k: int, p: int, last: i16, acc: PageHeader)
    requires
        agree(b, c, k),
        0 <= p <= k,
    ensures
        cut(b, c, k, p, dict_header_fields_at(b, p, last, acc), dict_header_fields_at(c, p, last, acc)),
        dict_header_fields_at(b, p, last, acc) matches Ok((_, e)) ==> p < e,
    decreases b.len() - p,
{
    lemma_field(b, c, k, p, last);
    match field_at(b, p, last) {
        Ok((Some(f), e)) => {
            if e <= k {
                lemma_dict_header_field(b, c, k, e, f, acc);
            } else {
                lemma_dict_header_field(b, b, b.len() as int, e, f, acc);
            }
            match dict_header_field_at(b, e, f, acc) {
                Ok((acc2, e2)) => {
                    if e2 <= k {
                        lemma_dict_header_fields(b, c, k, e2, f.id, acc2);
                    } else {
                        lemma_dict_header_fields(b, b, b.len() as int, e2, f.id, acc2);
                    }
                },
                Err(_) => {},
            }
        },
        _ => {},
    }
}

proof fn lemma_v2_header_field(b: Seq<u8>, c: Seq<u8>, k: int, p: int, f: Field, acc: PageHeader)
    requires
        agree(b, c, k),
        0 <= p <= k,
    ensures
        cut(b, c, k, p, v2_header_field_at(b, p, f, acc), v2_header_field_at(c, p, f, acc)),
{
    lemma_i32(b, c, k, p, f.ctype);
    lemma_skip(b, c, k, p, f.ctype);
}

proof fn lemma_v2_header_fields(b: Seq<u8>, c: Seq<u8>, k: int, p: int, last: i16, acc: PageHeader)
    requires
        agree(b, c, k),
        0 <= p <= k,
    ensures
        cut(b, c, k, p, v2_header_fields_at(b, p, last, acc), v2_header_fields_at(c, p, last, acc)),
        v2_header_fields_at(b, p, last, acc) matches Ok((_, e)) ==> p < e,
    decreases b.len() - p,
{
    lemma_field(b, c, k, p, last);
    match field_at(b, p, last) {
        Ok((Some(f), e)) => {
            if e <= k {
                lemma_v2_header_field(b, c, k, e, f, acc);
            } else {
                lemma_v2_header_field(b, b, b.len() as int, e, f, acc);
            }
            match v2_header_field_at(b, e, f, acc) {
                Ok((acc2, e2)) => {
                    if e2 <= k {
                        lemma_v2_header_fields(b, c, k, e2, f.id, acc2);
                    } else {
                        lemma_v2_header_fields(b, b, b.len() as int, e2, f.id, acc2);
                    }
                },
                Err(_) => {},
            }
        },
        _ => {},
    }
}

proof fn lemma_header_field(b: Seq<u8>, c: Seq<u8>, k: int, p: int, f: Field, acc: PageHeader)
    requires
        agree(b, c, k),
        0 <= p <= k,
    ensures
        cut(b, c, k, p, header_field_at(b, p, f, acc), header_field_at(c, p, f, acc)),
{
    lemma_i32(b, c, k, p, f.ctype);
    lemma_skip(b, c, k, p, f.ctype);
    if f.id == 5 {
        lemma_data_header_fields(b, c, k, p, 0, acc);
    } else if f.id == 7 {
        lemma_dict_header_fields(b, c, k, p, 0, acc);
    } else if f.id == 8 {
        lemma_v2_header_fields(b, c, k, p, 0, acc);
    }
}

proof fn lemma_header_fields(b: Seq<u8>, c: Seq<u8>, k: int, p: int, last: i16, acc: PageHeader)
    requires
        agree(b, c, k),
        0 <= p <= k,
    ensures
        cut(b, c, k, p, header_fields_at(b, p, last, acc), header_fields_at(c, p, last, acc)),
        header_fields_at(b, p, last, acc) matches Ok((_, e)) ==> p < e,
    decreases b.len() - p,
{
    lemma_field(b, c, k, p, last);
    match field_at(b, p, last) {
        Ok((Some(f), e)) => {
            if e <= k {
                lemma_header_field(b, c, k, e, f, acc);
            } else {
                lemma_header_field(b, b, b.len() as int, e, f, acc);
            }
            match header_field_at(b, e, f, acc) {
                Ok((acc2, e2)) => {
                    if e2 <= k {
                        lemma_header_fields(b, c, k, e2, f.id, acc2);
                    } else {
                        lemma_header_fields(b, b, b.len() as int, e2, f.id, acc2);
                    }
                },
                Err(_) => {},
            }
        },
        _ => {},
    }
}

/// A page header that is read depends on its own bytes alone: it has at least one, whatever follows
/// them the same header is read, and cut short anywhere it is an error.
pub proof fn law_header_bytes(b: Seq<u8>, after: Seq<u8>, m: int)
    requires
        page_header_of(b) is Ok,
    ensures
        ({
            let (h, n) = page_header_of(b)->Ok_0;
            &&& 1 <= n <= b.len()
            &&& page_header_of(b.take(n) + after) == Ok::<(PageHeader, int), PqErrorView>((h, n))
            &&& 0 <= m < n ==> (page_header_of(b.take(m)) matches Err(PqErrorView::Bad(_)))
        }),
{
    reveal(page_header_of);
    let (h, n) = page_header_of(b)->Ok_0;
    lemma_header_fields(b, b, b.len() as int, 0, 0, blank_header());
    lemma_header_fields(b, b.take(n) + after, n, 0, 0, blank_header());
    if 0 <= m < n {
        lemma_header_fields(b, b.take(m), m, 0, 0, blank_header());
    }
}

} // verus!
