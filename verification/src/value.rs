//! The values a column holds, and the mathematical values they stand for.
use vstd::prelude::*;

verus! {

/// One decoded value.
#[derive(Debug, PartialEq)]
pub enum PqValue {
    /// No value.
    Null,
    /// A truth value.
    Bool(bool),
    /// A signed 64-bit integer.
    I64(i64),
    /// A binary64 floating-point number, as its IEEE 754 bit pattern.
    F64(u64),
    /// A string of bytes.
    Bytes(Vec<u8>),
    /// Nanoseconds since the Unix epoch.
    Timestamp(i64),
    /// The number `unscaled` divided by ten to the power `scale`.
    Decimal { unscaled: i128, scale: i32 },
    /// The elements of a list, in order.
    List(Vec<PqValue>),
    /// The entries of a map, in the order they were written.
    MapKv(Vec<(PqValue, PqValue)>),
    /// The named fields of a struct, in schema order.
    Struct(Vec<(String, PqValue)>),
}

/// The mathematical value behind a [`PqValue`].
pub enum PqV {
    Null,
    Bool(bool),
    I64(i64),
    F64(u64),
    Bytes(Seq<u8>),
    Timestamp(i64),
    Decimal { unscaled: i128, scale: i32 },
    List(Seq<PqV>),
    MapKv(Seq<(PqV, PqV)>),
    Struct(Seq<(Seq<char>, PqV)>),
}

/// The mathematical value of a [`PqValue`].
pub open spec fn value_of(v: PqValue) -> PqV
    decreases v,
{
    match v {
        PqValue::Null => PqV::Null,
        PqValue::Bool(b) => PqV::Bool(b),
        PqValue::I64(n) => PqV::I64(n),
        PqValue::F64(n) => PqV::F64(n),
        PqValue::Bytes(b) => PqV::Bytes(b@),
        PqValue::Timestamp(n) => PqV::Timestamp(n),
        PqValue::Decimal { unscaled, scale } => PqV::Decimal { unscaled, scale },
        PqValue::List(l) => PqV::List(
            Seq::new(l@.len(), |i: int| if 0 <= i < l@.len() { value_of(l@[i]) } else { PqV::Null }),
        ),
        PqValue::MapKv(l) => PqV::MapKv(
            Seq::new(
                l@.len(),
                |i: int|
                    if 0 <= i < l@.len() {
                        (value_of(l@[i].0), value_of(l@[i].1))
                    } else {
                        (PqV::Null, PqV::Null)
                    },
            ),
        ),
        PqValue::Struct(l) => PqV::Struct(
            Seq::new(
                l@.len(),
                |i: int|
                    if 0 <= i < l@.len() {
                        (l@[i].0@, value_of(l@[i].1))
                    } else {
                        (Seq::empty(), PqV::Null)
                    },
            ),
        ),
    }
}

impl View for PqValue {
    type V = PqV;

    open spec fn view(&self) -> PqV {
        value_of(*self)
    }
}

/// The values behind a sequence of [`PqValue`]s.
pub open spec fn values(s: Seq<PqValue>) -> Seq<PqV> {
    s.map_values(|v: PqValue| v@)
}

/// The values behind a sequence of pairs.
pub open spec fn pair_values(s: Seq<(PqValue, PqValue)>) -> Seq<(PqV, PqV)> {
    s.map_values(|v: (PqValue, PqValue)| (v.0@, v.1@))
}

/// The values behind a sequence of named fields.
pub open spec fn field_values(s: Seq<(String, PqValue)>) -> Seq<(Seq<char>, PqV)> {
    s.map_values(|v: (String, PqValue)| (v.0@, v.1@))
}

/// A list stands for the sequence of its elements' values.
pub broadcast proof fn lemma_list_view(v: Vec<PqValue>)
    ensures
        #[trigger] PqValue::List(v)@ == PqV::List(values(v@)),
{
    let l = PqValue::List(v);
    assert(l@ is List);
    assert(l@->List_0.len() == v@.len());
    assert forall|i: int| 0 <= i < v@.len() implies l@->List_0[i] == #[trigger] v@[i]@ by {}
    assert(l@->List_0 =~= values(v@));
}

/// A map stands for the sequence of its entries' values.
pub broadcast proof fn lemma_map_view(v: Vec<(PqValue, PqValue)>)
    ensures
        #[trigger] PqValue::MapKv(v)@ == PqV::MapKv(pair_values(v@)),
{
    let l = PqValue::MapKv(v);
    assert forall|i: int| 0 <= i < v@.len() implies l@->MapKv_0[i] == (
        (#[trigger] v@[i]).0@,
        v@[i].1@,
    ) by {}
    assert(l@->MapKv_0 =~= pair_values(v@));
}

/// A struct stands for the sequence of its named fields' values.
pub broadcast proof fn lemma_struct_view(v: Vec<(String, PqValue)>)
    ensures
        #[trigger] PqValue::Struct(v)@ == PqV::Struct(field_values(v@)),
{
    let l = PqValue::Struct(v);
    assert forall|i: int| 0 <= i < v@.len() implies l@->Struct_0[i] == (
        (#[trigger] v@[i]).0@,
        v@[i].1@,
    ) by {}
    assert(l@->Struct_0 =~= field_values(v@));
}

pub broadcast group group_value_views {
    lemma_list_view,
    lemma_map_view,
    lemma_struct_view,
}

fn clone_list(v: &Vec<PqValue>) -> (r: Vec<PqValue>)
    ensures
        values(r@) == values(v@),
    decreases v,
{
    let mut out: Vec<PqValue> = Vec::new();
    let mut i: usize = 0;
    while i < v.len()
        invariant
            i <= v@.len(),
            out@.len() == i,
            forall|j: int| 0 <= j < i ==> (#[trigger] out@[j])@ == v@[j]@,
        decreases v@.len() - i,
    {
        proof {
            assert(decreases_to!(*v => v@[i as int]));
        }
        out.push(clone_value(&v[i]));
        i += 1;
    }
    assert(values(out@) =~= values(v@));
    out
}

fn clone_entries(v: &Vec<(PqValue, PqValue)>) -> (r: Vec<(PqValue, PqValue)>)
    ensures
        pair_values(r@) == pair_values(v@),
    decreases v,
{
    let mut out: Vec<(PqValue, PqValue)> = Vec::new();
    let mut i: usize = 0;
    while i < v.len()
        invariant
            i <= v@.len(),
            out@.len() == i,
            forall|j: int| 0 <= j < i ==> (#[trigger] out@[j]).0@ == v@[j].0@ && out@[j].1@ == v@[j].1@,
        decreases v@.len() - i,
    {
        proof {
            assert(decreases_to!(*v => v@[i as int]));
        }
        out.push((clone_value(&v[i].0), clone_value(&v[i].1)));
        i += 1;
    }
    assert(pair_values(out@) =~= pair_values(v@));
    out
}

fn clone_fields(v: &Vec<(String, PqValue)>) -> (r: Vec<(String, PqValue)>)
    ensures
        field_values(r@) == field_values(v@),
    decreases v,
{
    let mut out: Vec<(String, PqValue)> = Vec::new();
    let mut i: usize = 0;
    while i < v.len()
        invariant
            i <= v@.len(),
            out@.len() == i,
            forall|j: int| 0 <= j < i ==> (#[trigger] out@[j]).0@ == v@[j].0@ && out@[j].1@ == v@[j].1@,
        decreases v@.len() - i,
    {
        proof {
            assert(decreases_to!(*v => v@[i as int]));
        }
        out.push((v[i].0.clone(), clone_value(&v[i].1)));
        i += 1;
    }
    assert(field_values(out@) =~= field_values(v@));
    out
}

fn clone_value(v: &PqValue) -> (r: PqValue)
    ensures
        r@ == v@,
    decreases v,
{
    broadcast use group_value_views;

    match v {
        PqValue::Null => PqValue::Null,
        PqValue::Bool(b) => PqValue::Bool(*b),
        PqValue::I64(n) => PqValue::I64(*n),
        PqValue::F64(n) => PqValue::F64(*n),
        PqValue::Bytes(b) => PqValue::Bytes(copy_bytes(b)),
        PqValue::Timestamp(n) => PqValue::Timestamp(*n),
        PqValue::Decimal { unscaled, scale } => PqValue::Decimal {
            unscaled: *unscaled,
            scale: *scale,
        },
        PqValue::List(l) => PqValue::List(clone_list(l)),
        PqValue::MapKv(l) => PqValue::MapKv(clone_entries(l)),
        PqValue::Struct(l) => PqValue::Struct(clone_fields(l)),
    }
}

impl Clone for PqValue {
    fn clone(&self) -> (r: PqValue)
        ensures
            r@ == self@,
    {
        clone_value(self)
    }
}

/// A fresh copy of some bytes.
pub fn copy_bytes(b: &[u8]) -> (r: Vec<u8>)
    ensures
        r@ == b@,
{
    let mut out: Vec<u8> = Vec::new();
    out.extend_from_slice(b);
    assert(out@ =~= b@);
    out
}

} // verus!
