//! The PLAIN encoding: values one after the other, each in the form of its physical type.
use vstd::prelude::*;
use vstd::slice::slice_subrange;
use vstd::string::*;

use crate::bytes::{
    be_signed, bit_at, bit_of, flba_be_to_i128, le, le_i32, le_i64, le_u32, le_u64, signed32,
    signed64,
};
use crate::error::{bad, decimal, decimal_text, PqError, PqErrorView};
use crate::float::{widen, widened};
use crate::schema::Type;
use crate::value::{copy_bytes, values, PqV, PqValue};

verus! {

/// How many digits a decimal has, and how many of them stand behind the point.
#[derive(Clone, Copy, Debug)]
pub struct DecimalSpec {
    pub precision: u32,
    pub scale: u32,
}

/// How the values of a leaf are to be read.
#[derive(Clone, Copy, Debug)]
pub struct PlainSpec {
    pub ptype: Type,
    /// The width of a fixed-length byte array.
    pub flba_len: Option<usize>,
    /// Set where the leaf holds decimals.
    pub decimal: Option<DecimalSpec>,
}

impl PlainSpec {
    /// A leaf of any type but the fixed-length byte array, without decimals.
    pub fn plain(ptype: Type) -> (r: Self)
        ensures
            r == (PlainSpec { ptype, flba_len: None, decimal: None }),
    {
        PlainSpec { ptype, flba_len: None, decimal: None }
    }

    /// A fixed-length byte array of `n` bytes.
    pub fn flba(n: usize) -> (r: Self)
        ensures
            r == (PlainSpec { ptype: Type::FixedLenByteArray, flba_len: Some(n), decimal: None }),
    {
        PlainSpec { ptype: Type::FixedLenByteArray, flba_len: Some(n), decimal: None }
    }

    /// Decimals in fixed-length byte arrays of `n` bytes.
    pub fn flba_decimal(n: usize, precision: u32, scale: u32) -> (r: Self)
        ensures
            r == (PlainSpec {
                ptype: Type::FixedLenByteArray,
                flba_len: Some(n),
                decimal: Some(DecimalSpec { precision, scale }),
            }),
    {
        PlainSpec {
            ptype: Type::FixedLenByteArray,
            flba_len: Some(n),
            decimal: Some(DecimalSpec { precision, scale }),
        }
    }

    /// Decimals in 32-bit or 64-bit integers.
    pub fn int_decimal(ptype: Type, precision: u32, scale: u32) -> (r: Self)
        ensures
            r == (PlainSpec {
                ptype,
                flba_len: None,
                decimal: Some(DecimalSpec { precision, scale }),
            }),
    {
        PlainSpec { ptype, flba_len: None, decimal: Some(DecimalSpec { precision, scale }) }
    }

    /// Decimals in byte arrays.
    pub fn byte_array_decimal(precision: u32, scale: u32) -> (r: Self)
        ensures
            r == (PlainSpec {
                ptype: Type::ByteArray,
                flba_len: None,
                decimal: Some(DecimalSpec { precision, scale }),
            }),
    {
        PlainSpec {
            ptype: Type::ByteArray,
            flba_len: None,
            decimal: Some(DecimalSpec { precision, scale }),
        }
    }
}

/// The Julian day of the first of January 1970.
pub const JULIAN_UNIX_EPOCH: i64 = 2_440_588;

/// The nanoseconds of a day.
pub const NS_PER_DAY: i64 = 86_400_000_000_000;

/// What the values of a plain page come to.
pub type Plain = Result<Seq<PqV>, PqErrorView>;

/// An integer of a leaf, which is a decimal's digits where the leaf holds decimals.
pub open spec fn integer_value(n: int, dec: Option<DecimalSpec>) -> PqV {
    match dec {
        Some(d) => PqV::Decimal { unscaled: n as i128, scale: d.scale as i32 },
        None => PqV::I64(n as i64),
    }
}

/// Whether `count` values of `width` bytes each fit: the complaint where they do not.
pub open spec fn fixed_room(
    d: Seq<u8>,
    count: nat,
    width: nat,
    overflow: Seq<char>,
    truncated: Seq<char>,
) -> Result<(), PqErrorView> {
    if count * width > usize::MAX {
        Err(PqErrorView::Bad(overflow))
    } else if count * width > d.len() {
        Err(PqErrorView::Bad(truncated))
    } else {
        Ok(())
    }
}

/// The bytes of the value with number `i`, where each takes `width` bytes.
pub open spec fn fixed_slot(d: Seq<u8>, i: int, width: nat) -> Seq<u8> {
    d.subrange(i * width, i * width + width)
}

/// The length-prefixed byte array at position `p` and the position behind it.
pub open spec fn byte_array_at(d: Seq<u8>, p: int, dec: Option<DecimalSpec>) -> Result<
    (PqV, int),
    PqErrorView,
> {
    if p + 4 > d.len() {
        Err(PqErrorView::Bad("byte_array len truncated"@))
    } else {
        let n = le(d.subrange(p, p + 4)) as int;
        if dec is Some && (n == 0 || n > 16) {
            Err(PqErrorView::Bad("BYTE_ARRAY DECIMAL width out of range (1..=16)"@))
        } else if p + 4 + n > usize::MAX {
            Err(PqErrorView::Bad("byte_array len ovf"@))
        } else if p + 4 + n > d.len() {
            Err(PqErrorView::Bad("byte_array data truncated"@))
        } else {
            let s = d.subrange(p + 4, p + 4 + n);
            Ok(
                (
                    match dec {
                        Some(x) => PqV::Decimal {
                            unscaled: be_signed(s) as i128,
                            scale: x.scale as i32,
                        },
                        None => PqV::Bytes(s),
                    },
                    p + 4 + n,
                ),
            )
        }
    }
}

/// `count` length-prefixed byte arrays from position `p` on, and the position behind them.
pub open spec fn byte_arrays_at(d: Seq<u8>, p: int, count: nat, dec: Option<DecimalSpec>) -> Result<
    (Seq<PqV>, int),
    PqErrorView,
>
    decreases count,
{
    if count == 0 {
        Ok((Seq::empty(), p))
    } else {
        match byte_arrays_at(d, p, (count - 1) as nat, dec) {
            Err(x) => Err(x),
            Ok((s, e)) => match byte_array_at(d, e, dec) {
                Err(x) => Err(x),
                Ok((v, e2)) => Ok((s.push(v), e2)),
            },
        }
    }
}

/// The timestamp in twelve bytes: the nanoseconds of the day, then the Julian day.
pub open spec fn int96_value(s: Seq<u8>) -> Result<PqV, PqErrorView> {
    let nanos = le(s.subrange(0, 8)) as int;
    let day = le(s.subrange(8, 12)) as int;
    let ns = (day - JULIAN_UNIX_EPOCH) * NS_PER_DAY;
    if nanos >= NS_PER_DAY {
        Err(PqErrorView::Bad("int96 nanos-of-day out of range"@))
    } else if ns < i64::MIN || ns > i64::MAX || ns + nanos > i64::MAX {
        Err(PqErrorView::Bad("int96 ns overflow"@))
    } else {
        Ok(PqV::Timestamp((ns + nanos) as i64))
    }
}

/// The first `count` timestamps; the first that is none decides the complaint.
pub open spec fn int96_values(d: Seq<u8>, count: nat) -> Plain
    decreases count,
{
    if count == 0 {
        Ok(Seq::empty())
    } else {
        match int96_values(d, (count - 1) as nat) {
            Err(x) => Err(x),
            Ok(s) => match int96_value(fixed_slot(d, count - 1, 12)) {
                Err(x) => Err(x),
                Ok(v) => Ok(s.push(v)),
            },
        }
    }
}

/// The values of fixed-length byte arrays of `n` bytes.
pub open spec fn flba_values(d: Seq<u8>, n: nat, count: nat, dec: Option<DecimalSpec>) -> Plain {
    match fixed_room(d, count, n, "flba ovf"@, "flba truncated"@) {
        Err(x) => Err(x),
        Ok(_) => match dec {
            Some(x) => if n > 16 {
                Err(PqErrorView::Bad("DECIMAL FLBA byte width > 16 (overflows i128)"@))
            } else {
                Ok(
                    Seq::new(
                        count,
                        |i: int|
                            PqV::Decimal {
                                unscaled: be_signed(fixed_slot(d, i, n)) as i128,
                                scale: x.scale as i32,
                            },
                    ),
                )
            },
            None => Ok(Seq::new(count, |i: int| PqV::Bytes(fixed_slot(d, i, n)))),
        },
    }
}

/// The first `count` values of a plain page.
pub open spec fn plain_values(d: Seq<u8>, spec: PlainSpec, count: nat) -> Plain {
    let incompatible = PqErrorView::Bad("DECIMAL on incompatible physical type"@);
    match spec.ptype {
        Type::Int32 => match fixed_room(d, count, 4, "int32 ovf"@, "int32 truncated"@) {
            Err(x) => Err(x),
            Ok(_) => Ok(
                Seq::new(
                    count,
                    |i: int| integer_value(signed32(le(fixed_slot(d, i, 4))), spec.decimal),
                ),
            ),
        },
        Type::Int64 => match fixed_room(d, count, 8, "int64 ovf"@, "int64 truncated"@) {
            Err(x) => Err(x),
            Ok(_) => Ok(
                Seq::new(
                    count,
                    |i: int| integer_value(signed64(le(fixed_slot(d, i, 8))), spec.decimal),
                ),
            ),
        },
        Type::Float => if spec.decimal is Some {
            Err(incompatible)
        } else {
            match fixed_room(d, count, 4, "f32 ovf"@, "f32 truncated"@) {
                Err(x) => Err(x),
                Ok(_) => Ok(
                    Seq::new(count, |i: int| PqV::F64(widened(le(fixed_slot(d, i, 4)) as u32))),
                ),
            }
        },
        Type::Double => if spec.decimal is Some {
            Err(incompatible)
        } else {
            match fixed_room(d, count, 8, "f64 ovf"@, "f64 truncated"@) {
                Err(x) => Err(x),
                Ok(_) => Ok(Seq::new(count, |i: int| PqV::F64(le(fixed_slot(d, i, 8)) as u64))),
            }
        },
        Type::Boolean => if spec.decimal is Some {
            Err(incompatible)
        } else if count > 8 * d.len() {
            Err(PqErrorView::Bad("bool truncated"@))
        } else {
            Ok(Seq::new(count, |i: int| PqV::Bool(bit_at(d, i) == 1)))
        },
        Type::ByteArray => match byte_arrays_at(d, 0, count, spec.decimal) {
            Err(x) => Err(x),
            Ok((s, _)) => Ok(s),
        },
        Type::Int96 => match fixed_room(d, count, 12, "int96 ovf"@, "int96 truncated"@) {
            Err(x) => Err(x),
            Ok(_) => int96_values(d, count),
        },
        Type::FixedLenByteArray => match spec.flba_len {
            None => Err(PqErrorView::Bad("FLBA missing type_length"@)),
            Some(n) => if n == 0 {
                Err(PqErrorView::Bad("FLBA zero type_length"@))
            } else {
                flba_values(d, n as nat, count, spec.decimal)
            },
        },
        Type::Other(t) => Err(
            PqErrorView::Unsupported(
                "physical type Other("@ + decimal(t as int) + ") (OBJ-2c)"@,
            ),
        ),
    }
}

/// Whether decoding gave the values.
pub open spec fn decodes(r: Result<Vec<PqValue>, PqError>, s: Plain) -> bool {
    match (r, s) {
        (Ok(v), Ok(w)) => values(v@) == w,
        (Err(x), Err(y)) => x@ == y,
        _ => false,
    }
}

/// As many values come out as were asked for.
pub proof fn lemma_plain_len(d: Seq<u8>, spec: PlainSpec, count: nat)
    ensures
        plain_values(d, spec, count) matches Ok(v) ==> v.len() == count,
{
    lemma_byte_arrays_len(d, 0, count, spec.decimal);
    lemma_int96_len(d, count);
}

proof fn lemma_byte_arrays_len(d: Seq<u8>, p: int, count: nat, dec: Option<DecimalSpec>)
    ensures
        byte_arrays_at(d, p, count, dec) matches Ok((v, _)) ==> v.len() == count,
    decreases count,
{
    if count > 0 {
        lemma_byte_arrays_len(d, p, (count - 1) as nat, dec);
    }
}

proof fn lemma_int96_len(d: Seq<u8>, count: nat)
    ensures
        int96_values(d, count) matches Ok(v) ==> v.len() == count,
    decreases count,
{
    if count > 0 {
        lemma_int96_len(d, (count - 1) as nat);
    }
}

fn check_room(
    data: &[u8],
    count: usize,
    width: usize,
    overflow: &str,
    truncated: &str,
) -> (r: Result<(), PqError>)
    ensures
        match (r, fixed_room(data@, count as nat, width as nat, overflow@, truncated@)) {
            (Ok(_), Ok(_)) => true,
            (Err(x), Err(y)) => x@ == y,
            _ => false,
        },
        r is Ok ==> count * width <= data@.len() <= usize::MAX,
{
    match count.checked_mul(width) {
        None => Err(bad(overflow)),
        Some(need) => if need > data.len() {
            Err(bad(truncated))
        } else {
            Ok(())
        },
    }
}

proof fn lemma_slot_fits(i: int, count: int, width: int)
    requires
        0 <= i < count,
        0 <= width,
    ensures
        0 <= i * width,
        i * width + width <= count * width,
        (i + 1) * width == i * width + width,
{
    assert(i * width + width <= count * width) by (nonlinear_arith)
        requires
            0 <= i < count,
            0 <= width,
    ;
    assert(0 <= i * width) by (nonlinear_arith)
        requires
            0 <= i,
            0 <= width,
    ;
    assert((i + 1) * width == i * width + width) by (nonlinear_arith);
}

fn decode_int32(data: &[u8], dec: Option<DecimalSpec>, count: usize) -> (r: Vec<PqValue>)
    requires
        count * 4 <= data@.len() <= usize::MAX,
    ensures
        values(r@) == Seq::new(
            count as nat,
            |i: int| integer_value(signed32(le(fixed_slot(data@, i, 4))), dec),
        ),
{
    let mut out: Vec<PqValue> = Vec::new();
    let mut i: usize = 0;
    while i < count
        invariant
            i <= count,
            count * 4 <= data@.len() <= usize::MAX,
            out@.len() == i,
            forall|j: int|
                0 <= j < i ==> (#[trigger] out@[j])@ == integer_value(
                    signed32(le(fixed_slot(data@, j, 4))),
                    dec,
                ),
        decreases count - i,
    {
        let n: i32 = le_i32(data, i * 4);
        let v = match dec {
            Some(d) => PqValue::Decimal {
                unscaled: n as i128,
                scale: {
                    #[verifier::truncate]
                    (d.scale as i32)
                },
            },
            None => PqValue::I64(n as i64),
        };
        out.push(v);
        i += 1;
    }
    assert(values(out@) =~= Seq::new(
        count as nat,
        |i: int| integer_value(signed32(le(fixed_slot(data@, i, 4))), dec),
    ));
    out
}

fn decode_int64(data: &[u8], dec: Option<DecimalSpec>, count: usize) -> (r: Vec<PqValue>)
    requires
        count * 8 <= data@.len() <= usize::MAX,
    ensures
        values(r@) == Seq::new(
            count as nat,
            |i: int| integer_value(signed64(le(fixed_slot(data@, i, 8))), dec),
        ),
{
    let mut out: Vec<PqValue> = Vec::new();
    let mut i: usize = 0;
    while i < count
        invariant
            i <= count,
            count * 8 <= data@.len() <= usize::MAX,
            out@.len() == i,
            forall|j: int|
                0 <= j < i ==> (#[trigger] out@[j])@ == integer_value(
                    signed64(le(fixed_slot(data@, j, 8))),
                    dec,
                ),
        decreases count - i,
    {
        let n: i64 = le_i64(data, i * 8);
        let v = match dec {
            Some(d) => PqValue::Decimal {
                unscaled: n as i128,
                scale: {
                    #[verifier::truncate]
                    (d.scale as i32)
                },
            },
            None => PqValue::I64(n),
        };
        out.push(v);
        i += 1;
    }
    assert(values(out@) =~= Seq::new(
        count as nat,
        |i: int| integer_value(signed64(le(fixed_slot(data@, i, 8))), dec),
    ));
    out
}

fn decode_float(data: &[u8], count: usize) -> (r: Vec<PqValue>)
    requires
        count * 4 <= data@.len() <= usize::MAX,
    ensures
        values(r@) == Seq::new(
            count as nat,
            |i: int| PqV::F64(widened(le(fixed_slot(data@, i, 4)) as u32)),
        ),
{
    let mut out: Vec<PqValue> = Vec::new();
    let mut i: usize = 0;
    while i < count
        invariant
            i <= count,
            count * 4 <= data@.len() <= usize::MAX,
            out@.len() == i,
            forall|j: int|
                0 <= j < i ==> (#[trigger] out@[j])@ == PqV::F64(
                    widened(le(fixed_slot(data@, j, 4)) as u32),
                ),
        decreases count - i,
    {
        out.push(PqValue::F64(widen(le_u32(data, i * 4))));
        i += 1;
    }
    assert(values(out@) =~= Seq::new(
        count as nat,
        |i: int| PqV::F64(widened(le(fixed_slot(data@, i, 4)) as u32)),
    ));
    out
}

fn decode_double(data: &[u8], count: usize) -> (r: Vec<PqValue>)
    requires
        count * 8 <= data@.len() <= usize::MAX,
    ensures
        values(r@) == Seq::new(
            count as nat,
            |i: int| PqV::F64(le(fixed_slot(data@, i, 8)) as u64),
        ),
{
    let mut out: Vec<PqValue> = Vec::new();
    let mut i: usize = 0;
    while i < count
        invariant
            i <= count,
            count * 8 <= data@.len() <= usize::MAX,
            out@.len() == i,
            forall|j: int|
                0 <= j < i ==> (#[trigger] out@[j])@ == PqV::F64(
                    le(fixed_slot(data@, j, 8)) as u64,
                ),
        decreases count - i,
    {
        out.push(PqValue::F64(le_u64(data, i * 8)));
        i += 1;
    }
    assert(values(out@) =~= Seq::new(
        count as nat,
        |i: int| PqV::F64(le(fixed_slot(data@, i, 8)) as u64),
    ));
    out
}

fn decode_boolean(data: &[u8], count: usize) -> (r: Vec<PqValue>)
    requires
        count <= 8 * data@.len(),
    ensures
        values(r@) == Seq::new(count as nat, |i: int| PqV::Bool(bit_at(data@, i) == 1)),
{
    let mut out: Vec<PqValue> = Vec::new();
    let mut i: usize = 0;
    while i < count
        invariant
            i <= count,
            count <= 8 * data@.len(),
            out@.len() == i,
            forall|j: int|
                0 <= j < i ==> (#[trigger] out@[j])@ == PqV::Bool(bit_at(data@, j) == 1),
        decreases count - i,
    {
        let bit: u64 = bit_of(data[i / 8], (i % 8) as u8);
        out.push(PqValue::Bool(bit == 1));
        i += 1;
    }
    assert(values(out@) =~= Seq::new(count as nat, |i: int| PqV::Bool(bit_at(data@, i) == 1)));
    out
}

proof fn lemma_byte_arrays_error(
    d: Seq<u8>,
    p: int,
    few: nat,
    count: nat,
    dec: Option<DecimalSpec>,
)
    requires
        few <= count,
        byte_arrays_at(d, p, few, dec) is Err,
    ensures
        byte_arrays_at(d, p, count, dec) == byte_arrays_at(d, p, few, dec),
    decreases count - few,
{
    if few < count {
        lemma_byte_arrays_error(d, p, few, (count - 1) as nat, dec);
    }
}

fn read_byte_array(data: &[u8], p: usize, dec: Option<DecimalSpec>) -> (r: Result<
    (PqValue, usize),
    PqError,
>)
    requires
        p <= data@.len(),
    ensures
        match (r, byte_array_at(data@, p as int, dec)) {
            (Ok(v), Ok(w)) => v.0@ == w.0 && v.1 == w.1,
            (Err(x), Err(y)) => x@ == y,
            _ => false,
        },
        r matches Ok(v) ==> p < v.1 <= data@.len(),
{
    if data.len() - p < 4 {
        return Err(bad("byte_array len truncated"));
    }
    let n: usize = le_u32(data, p) as usize;
    let start: usize = p + 4;
    if dec.is_some() && (n == 0 || n > 16) {
        return Err(bad("BYTE_ARRAY DECIMAL width out of range (1..=16)"));
    }
    let end: usize = match start.checked_add(n) {
        Some(e) => e,
        None => return Err(bad("byte_array len ovf")),
    };
    if end > data.len() {
        return Err(bad("byte_array data truncated"));
    }
    let s = slice_subrange(data, start, end);
    let v = match dec {
        Some(d) => PqValue::Decimal {
            unscaled: flba_be_to_i128(s),
            scale: {
                #[verifier::truncate]
                (d.scale as i32)
            },
        },
        None => PqValue::Bytes(copy_bytes(s)),
    };
    Ok((v, end))
}

fn decode_byte_arrays(data: &[u8], dec: Option<DecimalSpec>, count: usize) -> (r: Result<
    Vec<PqValue>,
    PqError,
>)
    ensures
        match (r, byte_arrays_at(data@, 0, count as nat, dec)) {
            (Ok(v), Ok((w, _))) => values(v@) == w,
            (Err(x), Err(y)) => x@ == y,
            _ => false,
        },
{
    let mut out: Vec<PqValue> = Vec::new();
    let mut p: usize = 0;
    let mut i: usize = 0;
    assert(values(out@) =~= Seq::<PqV>::empty());
    while i < count
        invariant
            i <= count,
            p <= data@.len(),
            byte_arrays_at(data@, 0, i as nat, dec) == Ok::<(Seq<PqV>, int), PqErrorView>(
                (values(out@), p as int),
            ),
        decreases count - i,
    {
        let ghost before = out@;
        match read_byte_array(data, p, dec) {
            Err(x) => {
                proof {
                    lemma_byte_arrays_error(data@, 0, (i + 1) as nat, count as nat, dec);
                }
                return Err(x);
            },
            Ok((v, e)) => {
                out.push(v);
                p = e;
                assert(values(out@) =~= values(before).push(v@));
            },
        }
        i += 1;
    }
    Ok(out)
}

proof fn lemma_int96_error(d: Seq<u8>, few: nat, count: nat)
    requires
        few <= count,
        int96_values(d, few) is Err,
    ensures
        int96_values(d, count) == int96_values(d, few),
    decreases count - few,
{
    if few < count {
        lemma_int96_error(d, few, (count - 1) as nat);
    }
}

fn read_int96(s: &[u8]) -> (r: Result<PqValue, PqError>)
    requires
        s@.len() == 12,
    ensures
        match (r, int96_value(s@)) {
            (Ok(v), Ok(w)) => v@ == w,
            (Err(x), Err(y)) => x@ == y,
            _ => false,
        },
{
    let nanos: u64 = le_u64(s, 0);
    let day: u32 = le_u32(s, 8);
    if nanos >= 86_400_000_000_000 {
        return Err(bad("int96 nanos-of-day out of range"));
    }
    let days: i64 = day as i64 - JULIAN_UNIX_EPOCH;
    let day_ns: i64 = match days.checked_mul(NS_PER_DAY) {
        Some(n) => n,
        None => return Err(bad("int96 ns overflow")),
    };
    match day_ns.checked_add(nanos as i64) {
        Some(n) => Ok(PqValue::Timestamp(n)),
        None => Err(bad("int96 ns overflow")),
    }
}

fn decode_int96(data: &[u8], count: usize) -> (r: Result<Vec<PqValue>, PqError>)
    requires
        count * 12 <= data@.len() <= usize::MAX,
    ensures
        decodes(r, int96_values(data@, count as nat)),
{
    let mut out: Vec<PqValue> = Vec::new();
    let mut i: usize = 0;
    assert(values(out@) =~= Seq::<PqV>::empty());
    while i < count
        invariant
            i <= count,
            count * 12 <= data@.len() <= usize::MAX,
            int96_values(data@, i as nat) == Ok::<Seq<PqV>, PqErrorView>(values(out@)),
        decreases count - i,
    {
        let ghost before = out@;
        let s = slice_subrange(data, i * 12, i * 12 + 12);
        assert(s@ == fixed_slot(data@, i as int, 12));
        match read_int96(s) {
            Err(x) => {
                proof {
                    lemma_int96_error(data@, (i + 1) as nat, count as nat);
                }
                return Err(x);
            },
            Ok(v) => {
                out.push(v);
                assert(values(out@) =~= values(before).push(v@));
            },
        }
        i += 1;
    }
    Ok(out)
}

fn decode_flba(data: &[u8], n: usize, dec: Option<DecimalSpec>, count: usize) -> (r: Result<
    Vec<PqValue>,
    PqError,
>)
    requires
        n > 0,
    ensures
        decodes(r, flba_values(data@, n as nat, count as nat, dec)),
{
    check_room(data, count, n, "flba ovf", "flba truncated")?;
    if dec.is_some() && n > 16 {
        return Err(bad("DECIMAL FLBA byte width > 16 (overflows i128)"));
    }
    let ghost want = flba_values(data@, n as nat, count as nat, dec)->Ok_0;
    let mut out: Vec<PqValue> = Vec::new();
    let mut i: usize = 0;
    let mut p: usize = 0;
    while i < count
        invariant
            i <= count,
            n > 0,
            dec is Some ==> n <= 16,
            count * n <= data@.len() <= usize::MAX,
            p == i * n,
            out@.len() == i,
            want == flba_values(data@, n as nat, count as nat, dec)->Ok_0,
            forall|j: int| 0 <= j < i ==> (#[trigger] out@[j])@ == want[j],
        decreases count - i,
    {
        proof {
            lemma_slot_fits(i as int, count as int, n as int);
        }
        let s = slice_subrange(data, p, p + n);
        assert(s@ == fixed_slot(data@, i as int, n as nat));
        let v = match dec {
            Some(d) => PqValue::Decimal {
                unscaled: flba_be_to_i128(s),
                scale: {
                    #[verifier::truncate]
                    (d.scale as i32)
                },
            },
            None => PqValue::Bytes(copy_bytes(s)),
        };
        assert(v@ == want[i as int]);
        out.push(v);
        p = p + n;
        i += 1;
    }
    assert(values(out@) =~= want);
    Ok(out)
}

/// Decodes the first `count` values of a plain page.
pub fn decode_plain(data: &[u8], spec: PlainSpec, count: usize) -> (r: Result<
    Vec<PqValue>,
    PqError,
>)
    ensures
        decodes(r, plain_values(data@, spec, count as nat)),
{
    match spec.ptype {
        Type::Int32 => {
            check_room(data, count, 4, "int32 ovf", "int32 truncated")?;
            Ok(decode_int32(data, spec.decimal, count))
        },
        Type::Int64 => {
            check_room(data, count, 8, "int64 ovf", "int64 truncated")?;
            Ok(decode_int64(data, spec.decimal, count))
        },
        Type::Float => {
            if spec.decimal.is_some() {
                return Err(bad("DECIMAL on incompatible physical type"));
            }
            check_room(data, count, 4, "f32 ovf", "f32 truncated")?;
            Ok(decode_float(data, count))
        },
        Type::Double => {
            if spec.decimal.is_some() {
                return Err(bad("DECIMAL on incompatible physical type"));
            }
            check_room(data, count, 8, "f64 ovf", "f64 truncated")?;
            Ok(decode_double(data, count))
        },
        Type::Boolean => {
            if spec.decimal.is_some() {
                return Err(bad("DECIMAL on incompatible physical type"));
            }
            let need: usize = count / 8 + if count % 8 == 0 {
                0
            } else {
                1
            };
            if need > data.len() {
                return Err(bad("bool truncated"));
            }
            Ok(decode_boolean(data, count))
        },
        Type::ByteArray => decode_byte_arrays(data, spec.decimal, count),
        Type::Int96 => {
            check_room(data, count, 12, "int96 ovf", "int96 truncated")?;
            decode_int96(data, count)
        },
        Type::FixedLenByteArray => match spec.flba_len {
            None => Err(bad("FLBA missing type_length")),
            Some(n) => if n == 0 {
                Err(bad("FLBA zero type_length"))
            } else {
                decode_flba(data, n, spec.decimal, count)
            },
        },
        Type::Other(t) => {
            let mut m = "physical type Other(".to_owned();
            m.append(decimal_text(t as i128).as_str());
            m.append(") (OBJ-2c)");
            Err(PqError::Unsupported(m))
        },
    }
}

} // verus!
