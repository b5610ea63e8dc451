//! Values as JSON: a reader of JSON gets them back.
use vstd::prelude::*;

use crate::error::{decimal, digits};
use crate::json::{
    byte_text, bytes_text, entry_units, field_units, hex_digit, json, list_units, name_char,
    name_text, text_units, JsonUnit,
};
use crate::laws::texts::{lemma_byte_text, lemma_front};
use crate::value::PqV;

verus! {

/// The number that decimal digits stand for.
pub open spec fn digits_value(s: Seq<char>) -> int
    decreases s.len(),
{
    if s.len() == 0 {
        0
    } else {
        10 * digits_value(s.drop_last()) + (s.last() as int - '0' as int)
    }
}

/// The number that a decimal text stands for.
pub open spec fn number_read(s: Seq<char>) -> int {
    if s.len() > 0 && s[0] == '-' {
        -digits_value(s.skip(1))
    } else {
        digits_value(s)
    }
}

proof fn lemma_digits(n: nat)
    ensures
        digits_value(digits(n)) == n,
        digits(n).len() >= 1,
        forall|i: int|
            0 <= i < digits(n).len() ==> '0' <= #[trigger] digits(n)[i] && digits(n)[i] <= '9',
        n >= 1 ==> digits(n)[0] != '0',
    decreases n,
{
    let s = digits(n);
    if n >= 10 {
        lemma_digits(n / 10);
        let t = digits(n / 10);
        assert(s.drop_last() =~= t);
        assert(s[0] == t[0]);
        assert forall|i: int| 0 <= i < s.len() implies '0' <= #[trigger] s[i] && s[i] <= '9' by {
            if i < t.len() {
                assert(s[i] == t[i]);
            }
        }
    } else {
        assert(s.drop_last() =~= seq![]);
        assert(digits_value(s.drop_last()) == 0);
    }
}

/// An integer is written so that its text is read as the integer, in digits and without zeros in front.
pub proof fn law_decimal(n: int)
    ensures
        number_read(decimal(n)) == n,
        n == 0 ==> decimal(n) == seq!['0'],
        n > 0 ==> decimal(n)[0] != '0',
        n < 0 ==> decimal(n).len() >= 2 && decimal(n)[1] != '0',
        forall|i: int|
            0 <= i < decimal(n).len() && !(i == 0 && n < 0) ==> '0' <= #[trigger] decimal(n)[i]
                && decimal(n)[i] <= '9',
{
    reveal_strlit("-");
    if n < 0 {
        lemma_digits((-n) as nat);
        let s = decimal(n);
        assert(s.skip(1) =~= digits((-n) as nat));
        assert forall|i: int| 0 < i < s.len() implies '0' <= #[trigger] s[i] && s[i] <= '9' by {
            assert(s[i] == digits((-n) as nat)[i - 1]);
        }
    } else {
        lemma_digits(n as nat);
        if n == 0 {
            assert(decimal(n) =~= seq!['0']);
        }
    }
}

/// The value of a hexadecimal digit.
pub open spec fn hex_value(c: char) -> int {
    if '0' <= c && c <= '9' {
        c as int - '0' as int
    } else if 'a' <= c && c <= 'f' {
        c as int - 'a' as int + 10
    } else {
        c as int - 'A' as int + 10
    }
}

/// The characters of a JSON string, by their codes, from where the text stands on: up to the quote
/// that ends it, with escapes read for what they stand for; and what follows the quote.
pub open spec fn string_read(t: Seq<char>) -> (Seq<int>, Seq<char>)
    decreases t.len(),
{
    if t.len() == 0 {
        (seq![], seq![])
    } else if t[0] == '"' {
        (seq![], t.skip(1))
    } else if t[0] == '\\' && t.len() >= 6 && t[1] == 'u' {
        let (s, rest) = string_read(t.skip(6));
        let code = 4096 * hex_value(t[2]) + 256 * hex_value(t[3]) + 16 * hex_value(t[4])
            + hex_value(t[5]);
        (seq![code] + s, rest)
    } else if t[0] == '\\' && t.len() >= 2 {
        let (s, rest) = string_read(t.skip(2));
        (seq![t[1] as int] + s, rest)
    } else {
        let (s, rest) = string_read(t.skip(1));
        (seq![t[0] as int] + s, rest)
    }
}

proof fn lemma_hex_value(n: int)
    requires
        0 <= n < 16,
    ensures
        hex_value(hex_digit(n)) == n,
{
}

proof fn lemma_byte_read(x: u8, after: Seq<char>)
    ensures
        string_read(byte_text(x) + after).0 == seq![x as int] + string_read(after).0,
        string_read(byte_text(x) + after).1 == string_read(after).1,
{
    lemma_byte_text(x);
    let f = byte_text(x);
    let t = f + after;
    assert(t.skip(f.len() as int) =~= after);
    assert(t[0] == f[0]);
    if f.len() > 1 {
        assert(t[1] == f[1]);
    }
    if f.len() == 6 {
        assert(t[2] == f[2] && t[3] == f[3] && t[4] == f[4] && t[5] == f[5]);
        lemma_hex_value(x as int / 16);
        lemma_hex_value(x as int % 16);
        assert(hex_value('0') == 0);
    }
}

/// A byte string is written as a JSON string that is read as its bytes, one character each.
pub proof fn law_bytes_read(s: Seq<u8>, after: Seq<char>)
    ensures
        string_read(bytes_text(s) + (seq!['"'] + after)) == (
            s.map_values(|x: u8| x as int),
            after,
        ),
    decreases s.len(),
{
    let want = s.map_values(|x: u8| x as int);
    let end = seq!['"'] + after;
    if s.len() == 0 {
        assert(bytes_text(s) + end =~= end);
        assert(end.skip(1) =~= after);
        assert(want =~= seq![]);
    } else {
        let rest = s.drop_first();
        assert(s =~= seq![s[0]] + rest);
        lemma_front(s[0], rest);
        law_bytes_read(rest, after);
        assert(bytes_text(s) + end =~= byte_text(s[0]) + (bytes_text(rest) + end));
        lemma_byte_read(s[0], bytes_text(rest) + end);
        assert(want =~= seq![s[0] as int] + rest.map_values(|x: u8| x as int));
    }
}

proof fn lemma_name_front(c: char, s: Seq<char>)
    ensures
        name_text(seq![c] + s) == name_char(c) + name_text(s),
    decreases s.len(),
{
    let t = seq![c] + s;
    if s.len() == 0 {
        assert(t.drop_last() =~= Seq::<char>::empty());
        assert(name_text(Seq::<char>::empty()) =~= seq![]);
        assert(name_text(t) =~= name_char(c) + name_text(s));
    } else {
        assert(t.drop_last() =~= seq![c] + s.drop_last());
        lemma_name_front(c, s.drop_last());
        assert(name_text(t) =~= name_char(c) + name_text(s));
    }
}

proof fn lemma_name_read(c: char, after: Seq<char>)
    ensures
        string_read(name_char(c) + after).0 == seq![c as int] + string_read(after).0,
        string_read(name_char(c) + after).1 == string_read(after).1,
{
    reveal_strlit("\\\"");
    reveal_strlit("\\\\");
    reveal_strlit("\\u00");
    let f = name_char(c);
    let t = f + after;
    assert(t.skip(f.len() as int) =~= after);
    assert(t[0] == f[0]);
    if f.len() > 1 {
        assert(t[1] == f[1]);
    }
    if c != '"' && c != '\\' && (c as int) < 32 {
        assert(t[2] == f[2] && t[3] == f[3] && t[4] == f[4] && t[5] == f[5]);
        lemma_hex_value(c as int / 16);
        lemma_hex_value(c as int % 16);
        assert(hex_value('0') == 0);
    }
}

/// A name is written as a JSON string that is read as the name.
pub proof fn law_name_read(s: Seq<char>, after: Seq<char>)
    ensures
        string_read(name_text(s) + (seq!['"'] + after)) == (
            s.map_values(|c: char| c as int),
            after,
        ),
    decreases s.len(),
{
    let want = s.map_values(|c: char| c as int);
    let end = seq!['"'] + after;
    if s.len() == 0 {
        assert(name_text(s) + end =~= end);
        assert(end.skip(1) =~= after);
        assert(want =~= seq![]);
    } else {
        let rest = s.drop_first();
        assert(s =~= seq![s[0]] + rest);
        lemma_name_front(s[0], rest);
        law_name_read(rest, after);
        assert(name_text(s) + end =~= name_char(s[0]) + (name_text(rest) + end));
        lemma_name_read(s[0], name_text(rest) + end);
        assert(want =~= seq![s[0] as int] + rest.map_values(|c: char| c as int));
    }
}

/// Parts with commas between them.
pub open spec fn with_commas(parts: Seq<Seq<JsonUnit>>) -> Seq<JsonUnit>
    decreases parts.len(),
{
    if parts.len() == 0 {
        seq![]
    } else if parts.len() == 1 {
        parts[0]
    } else {
        parts[0] + text_units(seq![',']) + with_commas(parts.drop_first())
    }
}

proof fn lemma_commas_push(parts: Seq<Seq<JsonUnit>>, p: Seq<JsonUnit>)
    ensures
        with_commas(parts.push(p)) == if parts.len() == 0 {
            p
        } else {
            with_commas(parts) + text_units(seq![',']) + p
        },
    decreases parts.len(),
{
    let all = parts.push(p);
    if parts.len() == 0 {
    } else {
        assert(all.drop_first() =~= parts.drop_first().push(p));
        lemma_commas_push(parts.drop_first(), p);
        let c = text_units(seq![',']);
        if parts.len() == 1 {
            assert(with_commas(all) =~= parts[0] + c + p);
        } else {
            assert(with_commas(all) =~= with_commas(parts) + c + p);
        }
    }
}

/// A character as a unit of a text.
pub open spec fn unit(c: char) -> Seq<JsonUnit> {
    text_units(seq![c])
}

/// The entry of a map: a list of its key and its value.
pub open spec fn entry_json(e: (PqV, PqV)) -> Seq<JsonUnit> {
    unit('[') + json(e.0) + unit(',') + json(e.1) + unit(']')
}

/// The field of a struct: its name as a string, and its value.
pub open spec fn field_json(f: (Seq<char>, PqV)) -> Seq<JsonUnit> {
    unit('"') + text_units(name_text(f.0)) + unit('"') + unit(':') + json(f.1)
}

proof fn lemma_text_concat(a: Seq<char>, b: Seq<char>)
    ensures
        text_units(a + b) == text_units(a) + text_units(b),
{
    assert(text_units(a + b) =~= text_units(a) + text_units(b));
}

proof fn lemma_comma(i: int)
    ensures
        i > 0 ==> crate::json::comma(i) == seq![','],
        i <= 0 ==> crate::json::comma(i) == Seq::<char>::empty(),
{
    reveal_strlit(",");
    assert(","@ =~= seq![',']);
}

proof fn lemma_list(s: Seq<PqV>, k: nat)
    requires
        k <= s.len(),
    ensures
        list_units(s, k) == with_commas(Seq::new(k, |i: int| json(s[i]))),
    decreases k,
{
    let parts = Seq::new(k, |i: int| json(s[i]));
    if k == 0 {
        assert(parts =~= seq![]);
    } else {
        let m = (k - 1) as nat;
        lemma_list(s, m);
        let front = Seq::new(m, |i: int| json(s[i]));
        assert(parts =~= front.push(json(s[m as int])));
        lemma_commas_push(front, json(s[m as int]));
        lemma_comma(m as int);
        assert(text_units(Seq::<char>::empty()) =~= seq![]);
        assert(list_units(s, k) =~= with_commas(parts));
    }
}

proof fn lemma_entries(s: Seq<(PqV, PqV)>, k: nat)
    requires
        k <= s.len(),
    ensures
        entry_units(s, k) == with_commas(Seq::new(k, |i: int| entry_json(s[i]))),
    decreases k,
{
    let parts = Seq::new(k, |i: int| entry_json(s[i]));
    if k == 0 {
        assert(parts =~= seq![]);
    } else {
        let m = (k - 1) as nat;
        lemma_entries(s, m);
        let front = Seq::new(m, |i: int| entry_json(s[i]));
        assert(parts =~= front.push(entry_json(s[m as int])));
        lemma_commas_push(front, entry_json(s[m as int]));
        lemma_comma(m as int);
        reveal_strlit("[");
        reveal_strlit(",");
        reveal_strlit("]");
        assert("["@ =~= seq!['[']);
        assert(","@ =~= seq![',']);
        assert("]"@ =~= seq![']']);
        lemma_text_concat(crate::json::comma(m as int), "["@);
        assert(text_units(Seq::<char>::empty()) =~= seq![]);
        assert(entry_units(s, k) =~= with_commas(parts));
    }
}

proof fn lemma_fields(s: Seq<(Seq<char>, PqV)>, k: nat)
    requires
        k <= s.len(),
    ensures
        field_units(s, k) == with_commas(Seq::new(k, |i: int| field_json(s[i]))),
    decreases k,
{
    let parts = Seq::new(k, |i: int| field_json(s[i]));
    if k == 0 {
        assert(parts =~= seq![]);
    } else {
        let m = (k - 1) as nat;
        lemma_fields(s, m);
        let front = Seq::new(m, |i: int| field_json(s[i]));
        let f = s[m as int];
        assert(parts =~= front.push(field_json(f)));
        lemma_commas_push(front, field_json(f));
        let c = crate::json::comma(m as int);
        lemma_comma(m as int);
        reveal_strlit("\"");
        reveal_strlit("\":");
        assert("\""@ =~= seq!['"']);
        assert("\":"@ =~= seq!['"'] + seq![':']);
        lemma_text_concat(c, "\""@);
        lemma_text_concat(c + "\""@, name_text(f.0));
        lemma_text_concat(c + "\""@ + name_text(f.0), "\":"@);
        lemma_text_concat(seq!['"'], seq![':']);
        assert(text_units(Seq::<char>::empty()) =~= seq![]);
        assert(field_units(s, k) =~= with_commas(parts));
    }
}

/// A list is written as a JSON list of its elements, in order; a map as a list of its entries, each a
/// list of the key and the value; a struct as an object with its fields, in order, each under its name.
pub proof fn law_json_nested(v: PqV)
    ensures
        v matches PqV::List(s) ==> json(v) == unit('[') + with_commas(
            Seq::new(s.len(), |i: int| json(s[i])),
        ) + unit(']'),
        v matches PqV::MapKv(s) ==> json(v) == unit('[') + with_commas(
            Seq::new(s.len(), |i: int| entry_json(s[i])),
        ) + unit(']'),
        v matches PqV::Struct(s) ==> json(v) == unit('{') + with_commas(
            Seq::new(s.len(), |i: int| field_json(s[i])),
        ) + unit('}'),
{
    reveal_strlit("[");
    reveal_strlit("]");
    reveal_strlit("{");
    reveal_strlit("}");
    assert("["@ =~= seq!['[']);
    assert("]"@ =~= seq![']']);
    assert("{"@ =~= seq!['{']);
    assert("}"@ =~= seq!['}']);
    match v {
        PqV::List(s) => lemma_list(s, s.len()),
        PqV::MapKv(s) => lemma_entries(s, s.len()),
        PqV::Struct(s) => lemma_fields(s, s.len()),
        _ => {},
    }
}

/// A field of an object.
pub open spec fn named(name: Seq<char>, value: Seq<char>) -> Seq<char> {
    seq!['"'] + name + seq!['"', ':'] + value
}

proof fn lemma_decimal_object(a: Seq<char>, b: Seq<char>)
    ensures
        "{\"unscaled\":\""@ + a + "\",\"scale\":"@ + b + "}"@ == seq!['{'] + named(
            "unscaled"@,
            seq!['"'] + a + seq!['"'],
        ) + seq![','] + named("scale"@, b) + seq!['}'],
{
    reveal_strlit("{\"unscaled\":\"");
    reveal_strlit("\",\"scale\":");
    reveal_strlit("}");
    reveal_strlit("unscaled");
    reveal_strlit("scale");
    let x = seq!['{'] + (seq!['"'] + "unscaled"@ + seq!['"', ':']) + seq!['"'];
    let y = seq!['"'] + seq![','] + (seq!['"'] + "scale"@ + seq!['"', ':']);
    assert("{\"unscaled\":\""@ =~= x);
    assert("\",\"scale\":"@ =~= y);
    assert("}"@ =~= seq!['}']);
    assert(x + a + y + b + seq!['}'] =~= seq!['{'] + named(
        "unscaled"@,
        seq!['"'] + a + seq!['"'],
    ) + seq![','] + named("scale"@, b) + seq!['}']);
}

/// What is no list, map or struct is written as the JSON value that it is: an integer and a time as a
/// number, a byte string as a string, a floating-point number by its bits in the place of its text, and
/// a decimal as an object with its digits in a string and its scale.
pub proof fn law_json_single(v: PqV)
    ensures
        v matches PqV::Null ==> json(v) == text_units(seq!['n', 'u', 'l', 'l']),
        v matches PqV::Bool(b) ==> json(v) == text_units(
            if b {
                seq!['t', 'r', 'u', 'e']
            } else {
                seq!['f', 'a', 'l', 's', 'e']
            },
        ),
        v matches PqV::I64(n) ==> json(v) == text_units(decimal(n as int)),
        v matches PqV::Timestamp(n) ==> json(v) == text_units(decimal(n as int)),
        v matches PqV::F64(b) ==> json(v) == seq![JsonUnit::Float(b)],
        v matches PqV::Bytes(s) ==> json(v) == unit('"') + text_units(bytes_text(s)) + unit('"'),
        v matches PqV::Decimal { unscaled, scale } ==> json(v) == text_units(
            seq!['{'] + named("unscaled"@, seq!['"'] + decimal(unscaled as int) + seq!['"']) + seq![
                ',',
            ] + named("scale"@, decimal(scale as int)) + seq!['}'],
        ),
{
    reveal_strlit("null");
    reveal_strlit("true");
    reveal_strlit("false");
    reveal_strlit("\"");
    assert("null"@ =~= seq!['n', 'u', 'l', 'l']);
    assert("true"@ =~= seq!['t', 'r', 'u', 'e']);
    assert("false"@ =~= seq!['f', 'a', 'l', 's', 'e']);
    assert("\""@ =~= seq!['"']);
    match v {
        PqV::Bytes(s) => {
            lemma_text_concat("\""@, bytes_text(s));
            lemma_text_concat("\""@ + bytes_text(s), "\""@);
        },
        PqV::Decimal { unscaled, scale } => lemma_decimal_object(
            decimal(unscaled as int),
            decimal(scale as int),
        ),
        _ => {},
    }
}

} // verus!
