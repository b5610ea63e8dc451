//! Values as JSON.
//!
//! How a floating-point number is written is left to the caller: it stands in the text by its bits.
use vstd::prelude::*;
use vstd::string::*;

use crate::error::{decimal, decimal_text, truth, truth_text};
use crate::value::{
    field_values, group_value_views, pair_values, values, PqV, PqValue,
};

verus! {

/// Calls `String::push`. Claimed of it: the character comes behind the text.
pub assume_specification[ String::push ](s: &mut String, c: char)
    ensures
        final(s)@ == old(s)@.push(c),
;

/// A part of a text.
#[derive(Debug, Clone, PartialEq)]
pub enum JsonPiece {
    Text(String),
    /// A binary64 number, by its bits, in the place of its decimal text.
    Float(u64),
}

/// A character, by its code, or a number in the place of its text.
pub enum JsonUnit {
    Char(int),
    Float(u64),
}

/// The units of a text.
pub open spec fn text_units(s: Seq<char>) -> Seq<JsonUnit> {
    Seq::new(s.len(), |i: int| JsonUnit::Char(s[i] as int))
}

/// The units of a piece.
pub open spec fn piece_units(p: JsonPiece) -> Seq<JsonUnit> {
    match p {
        JsonPiece::Text(s) => text_units(s@),
        JsonPiece::Float(b) => seq![JsonUnit::Float(b)],
    }
}

/// The units of pieces one after the other.
pub open spec fn units(s: Seq<JsonPiece>) -> Seq<JsonUnit>
    decreases s.len(),
{
    if s.len() == 0 {
        seq![]
    } else {
        units(s.drop_last()) + piece_units(s.last())
    }
}

/// A hexadecimal digit.
pub open spec fn hex_digit(n: int) -> char {
    if n < 10 {
        ('0' as int + n) as char
    } else {
        ('a' as int + n - 10) as char
    }
}

/// An escape of a number below 256.
pub open spec fn escape(n: int) -> Seq<char> {
    "\\u00"@.push(hex_digit(n / 16)).push(hex_digit(n % 16))
}

/// A byte in a string: as it is, where it can be printed.
pub open spec fn byte_text(b: u8) -> Seq<char> {
    if b == 34 {
        "\\\""@
    } else if b == 92 {
        "\\\\"@
    } else if 32 <= b <= 126 {
        seq![b as char]
    } else {
        escape(b as int)
    }
}

/// Bytes in a string.
pub open spec fn bytes_text(s: Seq<u8>) -> Seq<char>
    decreases s.len(),
{
    if s.len() == 0 {
        seq![]
    } else {
        bytes_text(s.drop_last()) + byte_text(s.last())
    }
}

/// A character of a name in a string: as it is, unless it is a control character.
pub open spec fn name_char(c: char) -> Seq<char> {
    if c == '"' {
        "\\\""@
    } else if c == '\\' {
        "\\\\"@
    } else if (c as int) < 32 {
        escape(c as int)
    } else {
        seq![c]
    }
}

/// A name in a string.
pub open spec fn name_text(s: Seq<char>) -> Seq<char>
    decreases s.len(),
{
    if s.len() == 0 {
        seq![]
    } else {
        name_text(s.drop_last()) + name_char(s.last())
    }
}

/// What stands before element `i` of a list.
pub open spec fn comma(i: int) -> Seq<char> {
    if i > 0 {
        ","@
    } else {
        seq![]
    }
}

/// The first `k` elements of a list.
pub open spec fn list_units(s: Seq<PqV>, k: nat) -> Seq<JsonUnit>
    decreases s, k,
{
    if k == 0 || k > s.len() {
        seq![]
    } else {
        list_units(s, (k - 1) as nat) + text_units(comma(k - 1)) + json(s[k - 1])
    }
}

/// The first `k` entries of a map, each a list of its key and its value.
pub open spec fn entry_units(s: Seq<(PqV, PqV)>, k: nat) -> Seq<JsonUnit>
    decreases s, k,
{
    if k == 0 || k > s.len() {
        seq![]
    } else {
        entry_units(s, (k - 1) as nat) + text_units(comma(k - 1) + "["@) + json(s[k - 1].0) + text_units(
            ","@,
        ) + json(s[k - 1].1) + text_units("]"@)
    }
}

/// The first `k` fields of a struct.
pub open spec fn field_units(s: Seq<(Seq<char>, PqV)>, k: nat) -> Seq<JsonUnit>
    decreases s, k,
{
    if k == 0 || k > s.len() {
        seq![]
    } else {
        field_units(s, (k - 1) as nat) + text_units(
            comma(k - 1) + "\""@ + name_text(s[k - 1].0) + "\":"@,
        ) + json(s[k - 1].1)
    }
}

/// A value as JSON.
pub open spec fn json(v: PqV) -> Seq<JsonUnit>
    decreases v, 0nat,
{
    match v {
        PqV::Null => text_units("null"@),
        PqV::Bool(b) => text_units(truth(b)),
        PqV::I64(n) => text_units(decimal(n as int)),
        PqV::F64(b) => seq![JsonUnit::Float(b)],
        PqV::Bytes(b) => text_units("\""@ + bytes_text(b) + "\""@),
        PqV::Timestamp(n) => text_units(decimal(n as int)),
        PqV::Decimal { unscaled, scale } => text_units(
            "{\"unscaled\":\""@ + decimal(unscaled as int) + "\",\"scale\":"@ + decimal(
                scale as int,
            ) + "}"@,
        ),
        PqV::List(s) => text_units("["@) + list_units(s, s.len()) + text_units("]"@),
        PqV::MapKv(s) => text_units("["@) + entry_units(s, s.len()) + text_units("]"@),
        PqV::Struct(s) => text_units("{"@) + field_units(s, s.len()) + text_units("}"@),
    }
}

/// A text that is being written: whole pieces, and what follows them.
struct Writer {
    pieces: Vec<JsonPiece>,
    text: String,
}

impl Writer {
    /// What has been written.
    spec fn written(&self) -> Seq<JsonUnit> {
        units(self.pieces@) + text_units(self.text@)
    }

    fn new() -> (r: Writer)
        ensures
            r.written() == Seq::<JsonUnit>::empty(),
    {
        let pieces: Vec<JsonPiece> = Vec::new();
        let text = String::new();
        assert(units(pieces@) =~= Seq::<JsonUnit>::empty());
        assert(text@ =~= Seq::<char>::empty());
        assert(text_units(text@) =~= Seq::<JsonUnit>::empty());
        Writer { pieces, text }
    }

    fn text(&mut self, t: &str)
        ensures
            final(self).written() == old(self).written() + text_units(t@),
    {
        let ghost before = self.text@;
        self.text.append(t);
        proof {
            assert(text_units(before + t@) =~= text_units(before) + text_units(t@));
            assert(self.written() =~= old(self).written() + text_units(t@));
        }
    }

    fn float(&mut self, b: u64)
        ensures
            final(self).written() == old(self).written() + seq![JsonUnit::Float(b)],
    {
        let ghost before = self.pieces@;
        let ghost t = self.text@;
        let text = self.text.clone();
        self.pieces.push(JsonPiece::Text(text));
        let ghost middle = self.pieces@;
        self.pieces.push(JsonPiece::Float(b));
        self.text = String::new();
        proof {
            assert(middle.drop_last() =~= before);
            assert(self.pieces@.drop_last() =~= middle);
            assert(self.text@ =~= Seq::<char>::empty());
            assert(text_units(self.text@) =~= Seq::<JsonUnit>::empty());
            assert(units(middle) =~= units(before) + text_units(t));
            assert(units(self.pieces@) =~= units(middle) + seq![JsonUnit::Float(b)]);
            assert(self.written() =~= old(self).written() + seq![JsonUnit::Float(b)]);
        }
    }

    fn finish(self) -> (r: Vec<JsonPiece>)
        ensures
            units(r@) == self.written(),
    {
        let mut pieces = self.pieces;
        let ghost before = pieces@;
        pieces.push(JsonPiece::Text(self.text));
        proof {
            assert(pieces@.drop_last() =~= before);
        }
        pieces
    }
}

fn hex_char(n: u8) -> (c: char)
    requires
        n < 16,
    ensures
        c == hex_digit(n as int),
{
    if n < 10 {
        (48 + n) as char
    } else {
        (97 + n - 10) as char
    }
}

fn push_escape(s: &mut String, n: u8)
    ensures
        final(s)@ == old(s)@ + escape(n as int),
{
    s.append("\\u00");
    s.push(hex_char(n / 16));
    s.push(hex_char(n % 16));
    assert(s@ =~= old(s)@ + escape(n as int));
}

/// The text of bytes in a string.
fn bytes_string(b: &Vec<u8>) -> (s: String)
    ensures
        s@ == bytes_text(b@),
{
    let mut s = String::new();
    let mut i: usize = 0;
    proof {
        assert(b@.take(0) =~= seq![]);
        assert(s@ =~= seq![]);
    }
    while i < b.len()
        invariant
            i <= b@.len(),
            s@ == bytes_text(b@.take(i as int)),
        decreases b@.len() - i,
    {
        proof {
            assert(b@.take(i + 1).drop_last() =~= b@.take(i as int));
        }
        let x: u8 = b[i];
        let ghost before = s@;
        if x == 34 {
            s.append("\\\"");
        } else if x == 92 {
            s.append("\\\\");
        } else if 32 <= x && x <= 126 {
            s.push(x as char);
        } else {
            push_escape(&mut s, x);
        }
        proof {
            assert(s@ =~= before + byte_text(x));
        }
        i = i + 1;
    }
    proof {
        assert(b@.take(i as int) =~= b@);
    }
    s
}

/// The text of a name in a string.
fn name_string(name: &String) -> (s: String)
    ensures
        s@ == name_text(name@),
{
    let t = name.as_str();
    let n: usize = t.unicode_len();
    let mut s = String::new();
    let mut i: usize = 0;
    proof {
        assert(name@.take(0) =~= seq![]);
        assert(s@ =~= seq![]);
    }
    while i < n
        invariant
            i <= n == name@.len(),
            t@ == name@,
            s@ == name_text(name@.take(i as int)),
        decreases n - i,
    {
        proof {
            assert(name@.take(i + 1).drop_last() =~= name@.take(i as int));
        }
        let c: char = t.get_char(i);
        let ghost before = s@;
        if c == '"' {
            s.append("\\\"");
        } else if c == '\\' {
            s.append("\\\\");
        } else if (c as u32) < 32 {
            push_escape(&mut s, c as u32 as u8);
        } else {
            s.push(c);
        }
        proof {
            assert(s@ =~= before + name_char(c));
        }
        i = i + 1;
    }
    proof {
        assert(name@.take(i as int) =~= name@);
    }
    s
}

/// Writes the elements of a list.
fn write_list(v: &Vec<PqValue>, w: &mut Writer)
    ensures
        final(w).written() == old(w).written() + list_units(values(v@), v@.len()),
    decreases v, 0nat,
{
    let ghost start = w.written();
    let ghost s = values(v@);
    let mut i: usize = 0;
    proof {
        assert(start + list_units(s, 0) =~= start);
    }
    while i < v.len()
        invariant
            i <= v@.len(),
            s == values(v@),
            w.written() == start + list_units(s, i as nat),
        decreases v@.len() - i,
    {
        proof {
            assert(decreases_to!(*v => v@[i as int]));
            assert(s[i as int] == v@[i as int]@);
        }
        let ghost before = w.written();
        if i > 0 {
            w.text(",");
        }
        let ghost middle = w.written();
        write_value(&v[i], w);
        proof {
            assert(text_units(seq![]) =~= seq![]);
            assert(middle =~= before + text_units(comma(i as int)));
            assert(w.written() =~= start + list_units(s, (i + 1) as nat));
        }
        i = i + 1;
    }
}

/// Writes the entries of a map.
fn write_entries(v: &Vec<(PqValue, PqValue)>, w: &mut Writer)
    ensures
        final(w).written() == old(w).written() + entry_units(pair_values(v@), v@.len()),
    decreases v, 0nat,
{
    let ghost start = w.written();
    let ghost s = pair_values(v@);
    let mut i: usize = 0;
    proof {
        assert(start + entry_units(s, 0) =~= start);
    }
    while i < v.len()
        invariant
            i <= v@.len(),
            s == pair_values(v@),
            w.written() == start + entry_units(s, i as nat),
        decreases v@.len() - i,
    {
        proof {
            assert(decreases_to!(*v => v@[i as int]));
            assert(s[i as int] == (v@[i as int].0@, v@[i as int].1@));
        }
        let ghost before = w.written();
        if i > 0 {
            w.text(",");
        }
        w.text("[");
        let ghost middle = w.written();
        write_value(&v[i].0, w);
        w.text(",");
        write_value(&v[i].1, w);
        w.text("]");
        proof {
            assert(text_units(comma(i as int) + "["@) =~= text_units(comma(i as int)) + text_units(
                "["@,
            ));
            assert(text_units(seq![]) =~= seq![]);
            assert(middle =~= before + text_units(comma(i as int) + "["@));
            assert(w.written() =~= start + entry_units(s, (i + 1) as nat));
        }
        i = i + 1;
    }
}

/// Writes the fields of a struct.
fn write_fields(v: &Vec<(String, PqValue)>, w: &mut Writer)
    ensures
        final(w).written() == old(w).written() + field_units(field_values(v@), v@.len()),
    decreases v, 0nat,
{
    let ghost start = w.written();
    let ghost s = field_values(v@);
    let mut i: usize = 0;
    proof {
        assert(start + field_units(s, 0) =~= start);
    }
    while i < v.len()
        invariant
            i <= v@.len(),
            s == field_values(v@),
            w.written() == start + field_units(s, i as nat),
        decreases v@.len() - i,
    {
        proof {
            assert(decreases_to!(*v => v@[i as int]));
            assert(s[i as int] == (v@[i as int].0@, v@[i as int].1@));
        }
        let ghost before = w.written();
        let name = name_string(&v[i].0);
        let mut t = String::new();
        if i > 0 {
            t.append(",");
        }
        t.append("\"");
        t.append(name.as_str());
        t.append("\":");
        w.text(t.as_str());
        write_value(&v[i].1, w);
        proof {
            assert(t@ =~= comma(i as int) + "\""@ + name_text(s[i as int].0) + "\":"@);
            assert(w.written() =~= start + field_units(s, (i + 1) as nat));
        }
        i = i + 1;
    }
}

/// Writes a value.
fn write_value(v: &PqValue, w: &mut Writer)
    ensures
        final(w).written() == old(w).written() + json(v@),
    decreases v, 0nat,
{
    broadcast use group_value_views;

    match v {
        PqValue::Null => w.text("null"),
        PqValue::Bool(b) => w.text(truth_text(*b)),
        PqValue::I64(n) => {
            let t = decimal_text(*n as i128);
            w.text(t.as_str());
        },
        PqValue::F64(b) => w.float(*b),
        PqValue::Bytes(b) => {
            let s = bytes_string(b);
            let mut t = "\"".to_owned();
            t.append(s.as_str());
            t.append("\"");
            w.text(t.as_str());
        },
        PqValue::Timestamp(n) => {
            let t = decimal_text(*n as i128);
            w.text(t.as_str());
        },
        PqValue::Decimal { unscaled, scale } => {
            let a = decimal_text(*unscaled);
            let b = decimal_text(*scale as i128);
            let mut t = "{\"unscaled\":\"".to_owned();
            t.append(a.as_str());
            t.append("\",\"scale\":");
            t.append(b.as_str());
            t.append("}");
            w.text(t.as_str());
        },
        PqValue::List(l) => {
            w.text("[");
            write_list(l, w);
            w.text("]");
            proof {
                let s = values(l@);
                assert(w.written() =~= old(w).written() + (text_units("["@) + list_units(
                    s,
                    s.len(),
                ) + text_units("]"@)));
            }
        },
        PqValue::MapKv(l) => {
            w.text("[");
            write_entries(l, w);
            w.text("]");
            proof {
                let s = pair_values(l@);
                assert(w.written() =~= old(w).written() + (text_units("["@) + entry_units(
                    s,
                    s.len(),
                ) + text_units("]"@)));
            }
        },
        PqValue::Struct(l) => {
            w.text("{");
            write_fields(l, w);
            w.text("}");
            proof {
                let s = field_values(l@);
                assert(w.written() =~= old(w).written() + (text_units("{"@) + field_units(
                    s,
                    s.len(),
                ) + text_units("}"@)));
            }
        },
    }
}

/// Writes a list of values as JSON.
pub fn pqvalue_list_to_json(items: &[PqValue]) -> (r: Vec<JsonPiece>)
    ensures
        units(r@) == json(PqV::List(values(items@))),
{
    let mut w = Writer::new();
    w.text("[");
    let ghost s = values(items@);
    let mut i: usize = 0;
    proof {
        assert(w.written() =~= text_units("["@) + list_units(s, 0));
    }
    while i < items.len()
        invariant
            i <= items@.len(),
            s == values(items@),
            w.written() == text_units("["@) + list_units(s, i as nat),
        decreases items@.len() - i,
    {
        let ghost before = w.written();
        if i > 0 {
            w.text(",");
        }
        let ghost middle = w.written();
        write_value(&items[i], &mut w);
        proof {
            assert(s[i as int] == items@[i as int]@);
            assert(text_units(seq![]) =~= seq![]);
            assert(middle =~= before + text_units(comma(i as int)));
            assert(w.written() =~= text_units("["@) + list_units(s, (i + 1) as nat));
        }
        i = i + 1;
    }
    w.text("]");
    w.finish()
}

/// Writes a value as JSON.
pub fn pqvalue_to_json(v: &PqValue) -> (r: Vec<JsonPiece>)
    ensures
        units(r@) == json(v@),
{
    let mut w = Writer::new();
    write_value(v, &mut w);
    proof {
        assert(w.written() =~= json(v@));
    }
    w.finish()
}

} // verus!
