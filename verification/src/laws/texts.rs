//! Names, and values as JSON.
use vstd::prelude::*;
use vstd::utf8::{encode_utf8, encode_utf8_decode_utf8, encode_utf8_valid_utf8};

use crate::json::{byte_text, bytes_text, hex_digit};
use crate::text::text_of;

verus! {

pub(crate) proof fn lemma_byte_text(x: u8)
    ensures
        forall|i: int| 0 <= i < byte_text(x).len() ==> 32 <= (#[trigger] byte_text(x)[i]) as int
            && byte_text(x)[i] as int <= 126,
        byte_text(x).len() >= 1,
        x == 34 ==> byte_text(x) == seq!['\\', '"'],
        x == 92 ==> byte_text(x) == seq!['\\', '\\'],
        32 <= x <= 126 && x != 34 && x != 92 ==> byte_text(x) == seq![x as char],
        x < 32 || x > 126 ==> byte_text(x) == seq![
            '\\',
            'u',
            '0',
            '0',
            hex_digit(x as int / 16),
            hex_digit(x as int % 16),
        ],
{
    reveal_strlit("\\\"");
    reveal_strlit("\\\\");
    reveal_strlit("\\u00");
    if x == 34 {
        assert(byte_text(x) =~= seq!['\\', '"']);
    } else if x == 92 {
        assert(byte_text(x) =~= seq!['\\', '\\']);
    } else if 32 <= x <= 126 {
    } else {
        assert(byte_text(x) =~= seq![
            '\\',
            'u',
            '0',
            '0',
            hex_digit(x as int / 16),
            hex_digit(x as int % 16),
        ]);
    }
}

/// A byte string is written in printable ASCII, whatever its bytes are.
pub proof fn law_bytes_ascii(s: Seq<u8>)
    ensures
        forall|i: int| 0 <= i < bytes_text(s).len() ==> 32 <= (#[trigger] bytes_text(s)[i]) as int
            && bytes_text(s)[i] as int <= 126,
    decreases s.len(),
{
    if s.len() > 0 {
        law_bytes_ascii(s.drop_last());
        lemma_byte_text(s.last());
        let x = bytes_text(s.drop_last());
        let y = byte_text(s.last());
        let z = bytes_text(s);
        assert forall|i: int| 0 <= i < z.len() implies 32 <= (#[trigger] z[i]) as int
            && z[i] as int <= 126 by {
            if i < x.len() {
                assert(z[i] == x[i]);
            } else {
                assert(z[i] == y[i - x.len()]);
            }
        }
    }
}

pub(crate) proof fn lemma_front(x: u8, s: Seq<u8>)
    ensures
        bytes_text(seq![x] + s) == byte_text(x) + bytes_text(s),
    decreases s.len(),
{
    let t = seq![x] + s;
    if s.len() == 0 {
        assert(t.drop_last() =~= Seq::<u8>::empty());
        assert(bytes_text(Seq::<u8>::empty()) =~= seq![]);
        assert(bytes_text(t) =~= byte_text(x) + bytes_text(s));
    } else {
        assert(t.drop_last() =~= seq![x] + s.drop_last());
        lemma_front(x, s.drop_last());
        assert(bytes_text(t) =~= byte_text(x) + bytes_text(s));
    }
}

proof fn lemma_hex(a: int, b: int)
    requires
        0 <= a < 16,
        0 <= b < 16,
        hex_digit(a) == hex_digit(b),
    ensures
        a == b,
{
}

/// No byte's text is the start of another's.
proof fn lemma_prefix(x: u8, a: Seq<char>, y: u8, b: Seq<char>)
    requires
        byte_text(x) + a == byte_text(y) + b,
    ensures
        x == y,
        a == b,
{
    lemma_byte_text(x);
    lemma_byte_text(y);
    let p = byte_text(x) + a;
    let q = byte_text(y) + b;
    assert(p[0] == q[0]);
    assert(p[0] == byte_text(x)[0]);
    assert(q[0] == byte_text(y)[0]);
    if byte_text(x).len() > 1 && byte_text(y).len() > 1 {
        assert(p[1] == byte_text(x)[1]);
        assert(q[1] == byte_text(y)[1]);
        if byte_text(x).len() == 6 && byte_text(y).len() == 6 {
            assert(p[4] == byte_text(x)[4] && q[4] == byte_text(y)[4]);
            assert(p[5] == byte_text(x)[5] && q[5] == byte_text(y)[5]);
            lemma_hex(x as int / 16, y as int / 16);
            lemma_hex(x as int % 16, y as int % 16);
        }
    }
    assert(x == y);
    let n = byte_text(x).len() as int;
    assert(a =~= p.skip(n));
    assert(b =~= q.skip(n));
}

/// Two byte strings are written alike only if they are alike.
pub proof fn law_bytes_distinct(s: Seq<u8>, t: Seq<u8>)
    requires
        bytes_text(s) == bytes_text(t),
    ensures
        s == t,
    decreases s.len(),
{
    if s.len() == 0 || t.len() == 0 {
        if s.len() > 0 {
            lemma_front(s[0], s.drop_first());
            assert(s =~= seq![s[0]] + s.drop_first());
            lemma_byte_text(s[0]);
            assert(bytes_text(s).len() >= 1);
        }
        if t.len() > 0 {
            lemma_front(t[0], t.drop_first());
            assert(t =~= seq![t[0]] + t.drop_first());
            lemma_byte_text(t[0]);
            assert(bytes_text(t).len() >= 1);
        }
        assert(bytes_text(Seq::<u8>::empty()).len() == 0);
        if s.len() == 0 {
            assert(s =~= Seq::<u8>::empty());
        }
        if t.len() == 0 {
            assert(t =~= Seq::<u8>::empty());
        }
        assert(s =~= t);
    } else {
        assert(s =~= seq![s[0]] + s.drop_first());
        assert(t =~= seq![t[0]] + t.drop_first());
        lemma_front(s[0], s.drop_first());
        lemma_front(t[0], t.drop_first());
        lemma_prefix(s[0], bytes_text(s.drop_first()), t[0], bytes_text(t.drop_first()));
        law_bytes_distinct(s.drop_first(), t.drop_first());
    }
}

/// A name that was written in UTF-8 is read as it was.
pub proof fn law_name(name: Seq<char>)
    ensures
        text_of(encode_utf8(name)) == name,
{
    encode_utf8_valid_utf8(name);
    encode_utf8_decode_utf8(name);
}

} // verus!
