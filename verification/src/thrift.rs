//! The part of the Thrift compact protocol that Parquet metadata uses.
use vstd::prelude::*;

use crate::error::{bad, PqError, PqErrorView};
use crate::varint::{read_varint, varint_at, Varint, VarintView};

pub mod ctype;

verus! {

/// What reading an item gives.
pub type TResult<T> = Result<T, PqError>;

/// What stands at a position: an item and the position behind it, or why there is none.
pub type Parsed<T> = Result<(T, int), PqErrorView>;

/// Whether a read gave what stands at its position and stopped behind it.
pub open spec fn reads<T>(r: TResult<T>, at: int, s: Parsed<T>) -> bool {
    match (r, s) {
        (Ok(v), Ok((w, e))) => v == w && at == e,
        (Err(x), Err(y)) => x@ == y,
        _ => false,
    }
}

/// Whether a read gave, by its view, what stands at its position and stopped behind it.
pub open spec fn reads_view<T: View>(r: TResult<T>, at: int, s: Parsed<T::V>) -> bool {
    match (r, s) {
        (Ok(v), Ok((w, e))) => v@ == w && at == e,
        (Err(x), Err(y)) => x@ == y,
        _ => false,
    }
}

/// Whether a read of bytes gave the bytes at its position and stopped behind them.
pub open spec fn reads_bytes(r: TResult<&[u8]>, at: int, s: Parsed<Seq<u8>>) -> bool {
    match (r, s) {
        (Ok(v), Ok((w, e))) => v@ == w && at == e,
        (Err(x), Err(y)) => x@ == y,
        _ => false,
    }
}

/// The signed number that the zigzag code `u` stands for: 0, -1, 1, -2, 2 and so on.
pub open spec fn zigzag(u: u64) -> i64 {
    if u % 2 == 0 {
        (u / 2) as i64
    } else {
        (-(u / 2) - 1) as i64
    }
}

/// The byte at position `p`.
pub open spec fn byte_at(b: Seq<u8>, p: int) -> Parsed<u8> {
    if p < b.len() {
        Ok((b[p], p + 1))
    } else {
        Err(PqErrorView::Bad("eof: byte"@))
    }
}

/// The unsigned varint of at most ten bytes at position `p`.
pub open spec fn uvarint_at(b: Seq<u8>, p: int) -> Parsed<u64> {
    match varint_at(b, p, 10) {
        VarintView::Value { value, end } => Ok((value, end)),
        VarintView::Truncated => Err(PqErrorView::Bad("eof: byte"@)),
        VarintView::TooLong => Err(PqErrorView::Bad("varint overflow"@)),
    }
}

/// Where reading the varint at position `p` stops: behind it, at the end of the bytes where they end
/// too early, and behind the first byte too many where it is too long.
pub open spec fn uvarint_stop(b: Seq<u8>, p: int) -> int {
    match varint_at(b, p, 10) {
        VarintView::Value { end, .. } => end,
        VarintView::Truncated => b.len() as int,
        VarintView::TooLong => p + 11,
    }
}

/// The zigzag varint at position `p`.
pub open spec fn ivarint_at(b: Seq<u8>, p: int) -> Parsed<i64> {
    match uvarint_at(b, p) {
        Ok((u, e)) => Ok((zigzag(u), e)),
        Err(x) => Err(x),
    }
}

/// The `n` bytes at position `p`.
pub open spec fn take_at(b: Seq<u8>, p: int, n: int) -> Parsed<Seq<u8>> {
    if p + n > usize::MAX {
        Err(PqErrorView::Bad("len overflow"@))
    } else if p + n > b.len() {
        Err(PqErrorView::Bad("eof: take"@))
    } else {
        Ok((b.subrange(p, p + n), p + n))
    }
}

/// The length-prefixed bytes at position `p`; `range` is the complaint about a length that no
/// address can hold.
pub open spec fn binary_at(b: Seq<u8>, p: int, range: Seq<char>) -> Parsed<Seq<u8>> {
    match uvarint_at(b, p) {
        Ok((n, e)) => if n > usize::MAX {
            Err(PqErrorView::Bad(range))
        } else {
            take_at(b, e, n as int)
        },
        Err(x) => Err(x),
    }
}

/// The field header at position `p`, where the field before it had the id `last`.
pub open spec fn field_at(b: Seq<u8>, p: int, last: i16) -> Parsed<Option<Field>> {
    match byte_at(b, p) {
        Err(x) => Err(x),
        Ok((h, e)) => if h == 0 {
            Ok((None, e))
        } else if h / 16 == 0 {
            match ivarint_at(b, e) {
                Err(x) => Err(x),
                Ok((id, e2)) => if i16::MIN <= id <= i16::MAX {
                    Ok((Some(field_of(id as i16, h % 16)), e2))
                } else {
                    Err(PqErrorView::Bad("field id range"@))
                },
            }
        } else if last + h / 16 <= i16::MAX {
            Ok((Some(field_of((last + h / 16) as i16, h % 16)), e))
        } else {
            Err(PqErrorView::Bad("field id overflow"@))
        },
    }
}

/// A field with the given id and type; a boolean carries its value in its type.
pub open spec fn field_of(id: i16, ct: u8) -> Field {
    Field {
        id,
        ctype: ct,
        bool_val: if ct == ctype::BOOL_TRUE {
            Some(true)
        } else if ct == ctype::BOOL_FALSE {
            Some(false)
        } else {
            None
        },
    }
}

/// The list header at position `p`: the element type and the number of elements.
pub open spec fn list_header_at(b: Seq<u8>, p: int) -> Parsed<(u8, usize)> {
    match byte_at(b, p) {
        Err(x) => Err(x),
        Ok((h, e)) => if h / 16 == 15 {
            match uvarint_at(b, e) {
                Err(x) => Err(x),
                Ok((n, e2)) => if n > usize::MAX {
                    Err(PqErrorView::Bad("list size range"@))
                } else {
                    Ok(((h % 16, n as usize), e2))
                },
            }
        } else {
            Ok(((h % 16, (h / 16) as usize), e))
        },
    }
}

/// Where reading the field header at position `p` stops, where there is none.
pub open spec fn field_stop(b: Seq<u8>, p: int) -> int {
    if p >= b.len() {
        p
    } else if b[p] / 16 == 0 {
        uvarint_stop(b, p + 1)
    } else {
        p + 1
    }
}

/// Where reading the list header at position `p` stops, where there is none.
pub open spec fn list_header_stop(b: Seq<u8>, p: int) -> int {
    if p >= b.len() {
        p
    } else {
        uvarint_stop(b, p + 1)
    }
}

/// Whether a field of type `ct` holds an integer of at most 32 bits.
pub open spec fn holds_i32(ct: u8) -> bool {
    ct == ctype::I32 || ct == ctype::I8 || ct == ctype::I16
}

/// The 32-bit integer of a field of type `ct` at position `p`.
pub open spec fn i32_at(b: Seq<u8>, p: int, ct: u8) -> Parsed<i32> {
    if !holds_i32(ct) {
        Err(PqErrorView::Bad("expected i32"@))
    } else {
        match ivarint_at(b, p) {
            Err(x) => Err(x),
            Ok((v, e)) => if i32::MIN <= v <= i32::MAX {
                Ok((v as i32, e))
            } else {
                Err(PqErrorView::Bad("i32 range"@))
            },
        }
    }
}

/// The 64-bit integer of a field of type `ct` at position `p`.
pub open spec fn i64_at(b: Seq<u8>, p: int, ct: u8) -> Parsed<i64> {
    if ct != ctype::I64 {
        Err(PqErrorView::Bad("expected i64"@))
    } else {
        ivarint_at(b, p)
    }
}

/// The bytes of a field of type `ct` at position `p`.
pub open spec fn field_binary_at(b: Seq<u8>, p: int, ct: u8) -> Parsed<Seq<u8>> {
    if ct != ctype::BINARY {
        Err(PqErrorView::Bad("expected binary"@))
    } else {
        binary_at(b, p, "binary len range"@)
    }
}

/// The position behind the value of type `ct` at position `p`.
pub open spec fn skip_at(b: Seq<u8>, p: int, ct: u8) -> Result<int, PqErrorView>
    decreases b.len() - p, 1int, 0int,
{
    if ct == ctype::BOOL_TRUE || ct == ctype::BOOL_FALSE {
        Ok(p)
    } else if ct == ctype::I8 || ct == ctype::I16 || ct == ctype::I32 || ct == ctype::I64 {
        match uvarint_at(b, p) {
            Ok((_, e)) => Ok(e),
            Err(x) => Err(x),
        }
    } else if ct == ctype::DOUBLE {
        match take_at(b, p, 8) {
            Ok((_, e)) => Ok(e),
            Err(x) => Err(x),
        }
    } else if ct == ctype::BINARY {
        match binary_at(b, p, "skip bin len"@) {
            Ok((_, e)) => Ok(e),
            Err(x) => Err(x),
        }
    } else if ct == ctype::LIST || ct == ctype::SET {
        match list_header_at(b, p) {
            Ok((h, e)) => skip_many_at(b, e, h.0, h.1 as nat),
            Err(x) => Err(x),
        }
    } else if ct == ctype::STRUCT {
        skip_fields_at(b, p, 0)
    } else {
        Err(PqErrorView::Bad("skip: unknown ctype"@))
    }
}

/// The position behind `count` values of type `ct` from position `p` on.
pub open spec fn skip_many_at(b: Seq<u8>, p: int, ct: u8, count: nat) -> Result<int, PqErrorView>
    decreases b.len() - p, 2int, count,
{
    if count == 0 {
        Ok(p)
    } else {
        match skip_at(b, p, ct) {
            Ok(e) => if p <= e <= b.len() {
                skip_many_at(b, e, ct, (count - 1) as nat)
            } else {
                Ok(e)
            },
            Err(x) => Err(x),
        }
    }
}

/// The position behind the struct whose next field header stands at position `p`.
pub open spec fn skip_fields_at(b: Seq<u8>, p: int, last: i16) -> Result<int, PqErrorView>
    decreases b.len() - p, 0int, 0int,
{
    match field_at(b, p, last) {
        Err(x) => Err(x),
        Ok((None, e)) => Ok(e),
        Ok((Some(f), e)) => match skip_at(b, e, f.ctype) {
            Ok(e2) => if e <= e2 <= b.len() {
                skip_fields_at(b, e2, f.id)
            } else {
                Ok(e2)
            },
            Err(x) => Err(x),
        },
    }
}

/// Where passing over the value of type `ct` at position `p` stops, where that fails: the position,
/// and the id of the field read last in the struct it stops in. `last` is the id in the struct around
/// the value.
pub open spec fn skip_stop(b: Seq<u8>, p: int, ct: u8, last: i16) -> (int, i16)
    decreases b.len() - p, 1int, 0int,
{
    if ct == ctype::I8 || ct == ctype::I16 || ct == ctype::I32 || ct == ctype::I64 || ct
        == ctype::BINARY {
        (uvarint_stop(b, p), last)
    } else if ct == ctype::LIST || ct == ctype::SET {
        match list_header_at(b, p) {
            Ok((h, e)) => skip_many_stop(b, e, h.0, h.1 as nat, last),
            Err(_) => (list_header_stop(b, p), last),
        }
    } else if ct == ctype::STRUCT {
        skip_fields_stop(b, p, 0)
    } else {
        (p, last)
    }
}

/// Where passing over `count` values of type `ct` from position `p` on stops, where that fails.
pub open spec fn skip_many_stop(b: Seq<u8>, p: int, ct: u8, count: nat, last: i16) -> (int, i16)
    decreases b.len() - p, 2int, count,
{
    if count == 0 {
        (p, last)
    } else {
        match skip_at(b, p, ct) {
            Ok(e) => if p <= e <= b.len() {
                skip_many_stop(b, e, ct, (count - 1) as nat, last)
            } else {
                (e, last)
            },
            Err(_) => skip_stop(b, p, ct, last),
        }
    }
}

/// Where passing over the struct whose next field header stands at position `p` stops, where that
/// fails.
pub open spec fn skip_fields_stop(b: Seq<u8>, p: int, last: i16) -> (int, i16)
    decreases b.len() - p, 0int, 0int,
{
    match field_at(b, p, last) {
        Err(_) => (field_stop(b, p), last),
        Ok((None, e)) => (e, last),
        Ok((Some(f), e)) => match skip_at(b, e, f.ctype) {
            Ok(e2) => if e <= e2 <= b.len() {
                skip_fields_stop(b, e2, f.id)
            } else {
                (e2, f.id)
            },
            Err(_) => skip_stop(b, e, f.ctype, f.id),
        },
    }
}

/// What is still to be passed over: some values of one type, or the rest of a struct's fields, behind
/// which the ids are counted from `outer` again.
#[derive(Clone, Copy)]
enum Pending {
    Values { ct: u8, left: usize },
    Fields { outer: i16 },
}

/// Where passing over something ends and the id that is counted from there, or why and where it
/// stops, and the id there.
type Walk = Result<(int, i16), (PqErrorView, int, i16)>;

spec fn walk(r: Result<int, PqErrorView>, last: i16, stop: (int, i16)) -> Walk {
    match r {
        Ok(e) => Ok((e, last)),
        Err(x) => Err((x, stop.0, stop.1)),
    }
}

/// Passing over the value of type `ct` at position `p`.
spec fn skip_walk(b: Seq<u8>, p: int, ct: u8, last: i16) -> Walk {
    walk(skip_at(b, p, ct), last, skip_stop(b, p, ct, last))
}

/// Passing over what one entry stands for.
spec fn pending_walk(b: Seq<u8>, x: Pending, p: int, last: i16) -> Walk {
    match x {
        Pending::Values { ct, left } => walk(
            skip_many_at(b, p, ct, left as nat),
            last,
            skip_many_stop(b, p, ct, left as nat, last),
        ),
        Pending::Fields { outer } => walk(
            skip_fields_at(b, p, last),
            outer,
            skip_fields_stop(b, p, last),
        ),
    }
}

/// Passing over all that is still to be passed over at position `p`, the last of it first.
spec fn resumed(b: Seq<u8>, stack: Seq<Pending>, p: int, last: i16) -> Walk
    decreases stack.len(),
{
    if stack.len() == 0 {
        Ok((p, last))
    } else {
        match pending_walk(b, stack.last(), p, last) {
            Ok((e, l)) => resumed(b, stack.drop_last(), e, l),
            Err(x) => Err(x),
        }
    }
}

/// How many steps without a byte are left at most.
spec fn idle_steps(stack: Seq<Pending>) -> nat
    decreases stack.len(),
{
    if stack.len() == 0 {
        0
    } else {
        idle_steps(stack.drop_last()) + match stack.last() {
            Pending::Values { left, .. } => 1 + 2 * left as nat,
            Pending::Fields { .. } => 1nat,
        }
    }
}

/// What is passed over lies within the bytes.
pub proof fn lemma_skip_bounds(b: Seq<u8>, p: int, ct: u8)
    requires
        0 <= p <= b.len(),
    ensures
        skip_at(b, p, ct) matches Ok(e) ==> p <= e <= b.len(),
    decreases b.len() - p, 1int, 0int,
{
    if ct == ctype::LIST || ct == ctype::SET {
        match list_header_at(b, p) {
            Ok((h, e)) => lemma_skip_many_bounds(b, e, h.0, h.1 as nat),
            Err(_) => {},
        }
    } else if ct == ctype::STRUCT {
        lemma_skip_fields_bounds(b, p, 0);
    }
}

proof fn lemma_skip_many_bounds(b: Seq<u8>, p: int, ct: u8, count: nat)
    requires
        0 <= p <= b.len(),
    ensures
        skip_many_at(b, p, ct, count) matches Ok(e) ==> p <= e <= b.len(),
    decreases b.len() - p, 2int, count,
{
    if count > 0 {
        lemma_skip_bounds(b, p, ct);
        match skip_at(b, p, ct) {
            Ok(e) => lemma_skip_many_bounds(b, e, ct, (count - 1) as nat),
            Err(_) => {},
        }
    }
}

proof fn lemma_skip_fields_bounds(b: Seq<u8>, p: int, last: i16)
    requires
        0 <= p <= b.len(),
    ensures
        skip_fields_at(b, p, last) matches Ok(e) ==> p <= e <= b.len(),
    decreases b.len() - p, 0int, 0int,
{
    match field_at(b, p, last) {
        Ok((Some(f), e)) => {
            lemma_skip_bounds(b, e, f.ctype);
            match skip_at(b, e, f.ctype) {
                Ok(e2) => lemma_skip_fields_bounds(b, e2, f.id),
                Err(_) => {},
            }
        },
        _ => {},
    }
}

/// Values that take no bytes are passed over at once.
proof fn lemma_skip_truths(b: Seq<u8>, p: int, ct: u8, count: nat)
    requires
        0 <= p <= b.len(),
        ct == ctype::BOOL_TRUE || ct == ctype::BOOL_FALSE,
    ensures
        skip_many_at(b, p, ct, count) == Ok::<int, PqErrorView>(p),
    decreases count,
{
    if count > 0 {
        assert(skip_at(b, p, ct) == Ok::<int, PqErrorView>(p));
        lemma_skip_truths(b, p, ct, (count - 1) as nat);
    }
}

proof fn lemma_pushed(b: Seq<u8>, stack: Seq<Pending>, x: Pending, p: int, last: i16)
    ensures
        resumed(b, stack.push(x), p, last) == match pending_walk(b, x, p, last) {
            Ok((e, l)) => resumed(b, stack, e, l),
            Err(y) => Err(y),
        },
        idle_steps(stack.push(x)) == idle_steps(stack) + match x {
            Pending::Values { left, .. } => 1 + 2 * left as nat,
            Pending::Fields { .. } => 1nat,
        },
{
    assert(stack.push(x).drop_last() =~= stack);
}

/// The number a zigzag code stands for.
pub fn zigzag_decode(u: u64) -> (r: i64)
    ensures
        r == zigzag(u),
{
    let h: i64 = (u / 2) as i64;
    if u % 2 == 0 {
        h
    } else {
        -h - 1
    }
}

/// A cursor over bytes.
pub struct Reader<'a> {
    b: &'a [u8],
    p: usize,
}

impl<'a> Reader<'a> {
    /// The bytes under the cursor.
    pub closed spec fn bytes(&self) -> Seq<u8> {
        self.b@
    }

    /// The position of the cursor.
    pub closed spec fn at(&self) -> int {
        self.p as int
    }

    /// The cursor stands within its bytes or right behind them.
    pub open spec fn wf(&self) -> bool {
        0 <= self.at() <= self.bytes().len() <= usize::MAX
    }

    /// A read leaves the bytes as they are and never moves the cursor back.
    pub open spec fn follows(&self, before: &Reader<'a>) -> bool {
        &&& self.wf()
        &&& self.bytes() == before.bytes()
        &&& before.at() <= self.at()
    }

    /// A cursor at the first byte.
    pub fn new(b: &'a [u8]) -> (r: Self)
        ensures
            r.wf(),
            r.bytes() == b@,
            r.at() == 0,
    {
        let n: usize = b.len();
        Reader { b, p: 0 }
    }

    /// The position of the cursor.
    pub fn pos(&self) -> (r: usize)
        ensures
            r == self.at(),
    {
        self.p
    }

    /// Whether no bytes are left.
    pub fn at_end(&self) -> (r: bool)
        ensures
            r == (self.at() >= self.bytes().len()),
    {
        self.p >= self.b.len()
    }

    /// Reads one byte.
    pub fn byte(&mut self) -> (r: TResult<u8>)
        requires
            old(self).wf(),
        ensures
            final(self).follows(old(self)),
            reads(r, final(self).at(), byte_at(old(self).bytes(), old(self).at())),
            r is Err ==> final(self).at() == old(self).at(),
    {
        if self.p < self.b.len() {
            let v: u8 = self.b[self.p];
            self.p = self.p + 1;
            Ok(v)
        } else {
            Err(bad("eof: byte"))
        }
    }

    /// Reads an unsigned varint.
    pub fn uvarint(&mut self) -> (r: TResult<u64>)
        requires
            old(self).wf(),
        ensures
            final(self).follows(old(self)),
            reads(r, final(self).at(), uvarint_at(old(self).bytes(), old(self).at())),
            final(self).at() == uvarint_stop(old(self).bytes(), old(self).at()),
    {
        assert(self.b@.len() == self.b.len());
        match read_varint(self.b, self.p, 10) {
            Varint::Value { value, end } => {
                self.p = end;
                Ok(value)
            },
            Varint::Truncated => {
                self.p = self.b.len();
                Err(bad("eof: byte"))
            },
            Varint::TooLong => {
                self.p = self.p + 11;
                Err(bad("varint overflow"))
            },
        }
    }

    /// Reads a zigzag varint.
    pub fn ivarint(&mut self) -> (r: TResult<i64>)
        requires
            old(self).wf(),
        ensures
            final(self).follows(old(self)),
            reads(r, final(self).at(), ivarint_at(old(self).bytes(), old(self).at())),
            final(self).at() == uvarint_stop(old(self).bytes(), old(self).at()),
    {
        let u: u64 = self.uvarint()?;
        Ok(zigzag_decode(u))
    }

    /// Reads `n` bytes.
    pub fn take(&mut self, n: usize) -> (r: TResult<&'a [u8]>)
        requires
            old(self).wf(),
        ensures
            final(self).follows(old(self)),
            reads_bytes(r, final(self).at(), take_at(old(self).bytes(), old(self).at(), n as int)),
            r is Err ==> final(self).at() == old(self).at(),
    {
        let end: usize = match self.p.checked_add(n) {
            Some(e) => e,
            None => return Err(bad("len overflow")),
        };
        if end > self.b.len() {
            return Err(bad("eof: take"));
        }
        let s = vstd::slice::slice_subrange(self.b, self.p, end);
        self.p = end;
        Ok(s)
    }
}

/// The header of a struct's field.
#[derive(Clone, Debug)]
pub struct Field {
    pub id: i16,
    pub ctype: u8,
    /// The value, where the field is a boolean.
    pub bool_val: Option<bool>,
}

/// Reads the fields of a struct, whose ids are coded as differences.
pub struct StructReader<'a> {
    r: Reader<'a>,
    last_id: i16,
}

impl<'a> StructReader<'a> {
    /// The cursor over the struct's bytes.
    pub closed spec fn cursor(&self) -> Reader<'a> {
        self.r
    }

    /// The bytes the struct is read from.
    pub open spec fn bytes(&self) -> Seq<u8> {
        self.cursor().bytes()
    }

    /// The position of the next read.
    pub open spec fn at(&self) -> int {
        self.cursor().at()
    }

    /// The id of the field read last, from which the next one is counted.
    pub closed spec fn last(&self) -> i16 {
        self.last_id
    }

    /// The next read is within the bytes or right behind them.
    pub open spec fn wf(&self) -> bool {
        self.cursor().wf()
    }

    /// A read leaves the bytes as they are and never moves back.
    pub open spec fn follows(&self, before: &StructReader<'a>) -> bool {
        self.cursor().follows(&before.cursor())
    }

    /// A reader at the start of a struct.
    pub fn new(b: &'a [u8]) -> (r: Self)
        ensures
            r.wf(),
            r.bytes() == b@,
            r.at() == 0,
            r.last() == 0,
    {
        StructReader { r: Reader::new(b), last_id: 0 }
    }

    /// The cursor, for items that are not fields.
    pub fn reader(&mut self) -> (r: &mut Reader<'a>)
        ensures
            *r == old(self).cursor(),
            final(self).cursor() == *final(r),
            final(self).last() == old(self).last(),
    {
        &mut self.r
    }

    /// The position of the next read.
    pub fn reader_pos(&self) -> (r: usize)
        ensures
            r == self.at(),
    {
        self.r.pos()
    }

    /// The id from which the next field's id is counted.
    pub fn save_last_id(&self) -> (r: i16)
        ensures
            r == self.last(),
    {
        self.last_id
    }

    /// Counts the next field's id from `id`.
    pub fn restore_last_id(&mut self, id: i16)
        ensures
            final(self).cursor() == old(self).cursor(),
            final(self).last() == id,
    {
        self.last_id = id;
    }

    /// Counts the next field's id from zero, as at the start of a struct.
    pub fn reset_last_id(&mut self)
        ensures
            final(self).cursor() == old(self).cursor(),
            final(self).last() == 0,
    {
        self.last_id = 0;
    }

    /// Reads a field header; `None` is the end of the struct.
    pub fn next_field(&mut self) -> (r: TResult<Option<Field>>)
        requires
            old(self).wf(),
        ensures
            final(self).follows(old(self)),
            reads(
                r,
                final(self).at(),
                field_at(old(self).bytes(), old(self).at(), old(self).last()),
            ),
            r is Ok ==> final(self).at() > old(self).at(),
            r matches Ok(Some(f)) ==> final(self).last() == f.id,
            r matches Ok(None) ==> final(self).last() == old(self).last(),
            r is Err ==> final(self).last() == old(self).last(),
            r is Err ==> final(self).at() == field_stop(old(self).bytes(), old(self).at()),
    {
        let h: u8 = self.r.byte()?;
        if h == 0 {
            return Ok(None);
        }
        let ct: u8 = h % 16;
        let delta: u8 = h / 16;
        let id: i16 = if delta == 0 {
            let z: i64 = self.r.ivarint()?;
            if z < i16::MIN as i64 || z > i16::MAX as i64 {
                return Err(bad("field id range"));
            }
            z as i16
        } else {
            match self.last_id.checked_add(delta as i16) {
                Some(id) => id,
                None => return Err(bad("field id overflow")),
            }
        };
        self.last_id = id;
        let bool_val = if ct == ctype::BOOL_TRUE {
            Some(true)
        } else if ct == ctype::BOOL_FALSE {
            Some(false)
        } else {
            None
        };
        Ok(Some(Field { id, ctype: ct, bool_val }))
    }

    /// Reads the value of a 32-bit integer field.
    pub fn read_i32(&mut self, f: &Field) -> (r: TResult<i32>)
        requires
            old(self).wf(),
        ensures
            final(self).follows(old(self)),
            final(self).last() == old(self).last(),
            reads(r, final(self).at(), i32_at(old(self).bytes(), old(self).at(), f.ctype)),
            final(self).at() == if holds_i32(f.ctype) {
                uvarint_stop(old(self).bytes(), old(self).at())
            } else {
                old(self).at()
            },
    {
        if f.ctype != ctype::I32 && f.ctype != ctype::I8 && f.ctype != ctype::I16 {
            return Err(bad("expected i32"));
        }
        let v: i64 = self.r.ivarint()?;
        if v < i32::MIN as i64 || v > i32::MAX as i64 {
            return Err(bad("i32 range"));
        }
        Ok(v as i32)
    }

    /// Reads the value of a 64-bit integer field.
    pub fn read_i64(&mut self, f: &Field) -> (r: TResult<i64>)
        requires
            old(self).wf(),
        ensures
            final(self).follows(old(self)),
            final(self).last() == old(self).last(),
            reads(r, final(self).at(), i64_at(old(self).bytes(), old(self).at(), f.ctype)),
            final(self).at() == if f.ctype == ctype::I64 {
                uvarint_stop(old(self).bytes(), old(self).at())
            } else {
                old(self).at()
            },
    {
        if f.ctype != ctype::I64 {
            return Err(bad("expected i64"));
        }
        self.r.ivarint()
    }

    /// The value of a boolean field, which its header holds.
    pub fn read_bool(&mut self, f: &Field) -> (r: TResult<bool>)
        ensures
            *final(self) == *old(self),
            match f.bool_val {
                Some(v) => r == Ok::<bool, PqError>(v),
                None => r matches Err(e) && e@ == PqErrorView::Bad("expected bool"@),
            },
    {
        match f.bool_val {
            Some(v) => Ok(v),
            None => Err(bad("expected bool")),
        }
    }

    /// Reads the value of a binary field.
    pub fn read_binary(&mut self, f: &Field) -> (r: TResult<&'a [u8]>)
        requires
            old(self).wf(),
        ensures
            final(self).follows(old(self)),
            final(self).last() == old(self).last(),
            reads_bytes(
                r,
                final(self).at(),
                field_binary_at(old(self).bytes(), old(self).at(), f.ctype),
            ),
            r is Err ==> final(self).at() == if f.ctype == ctype::BINARY {
                uvarint_stop(old(self).bytes(), old(self).at())
            } else {
                old(self).at()
            },
    {
        if f.ctype != ctype::BINARY {
            return Err(bad("expected binary"));
        }
        let n: u64 = self.r.uvarint()?;
        if n > usize::MAX as u64 {
            return Err(bad("binary len range"));
        }
        self.r.take(n as usize)
    }

    /// Reads a list header: the element type and the number of elements.
    pub fn list_header(&mut self) -> (r: TResult<(u8, usize)>)
        requires
            old(self).wf(),
        ensures
            final(self).follows(old(self)),
            final(self).last() == old(self).last(),
            reads(r, final(self).at(), list_header_at(old(self).bytes(), old(self).at())),
            r is Ok ==> final(self).at() > old(self).at(),
            r is Err ==> final(self).at() == list_header_stop(old(self).bytes(), old(self).at()),
    {
        let h: u8 = self.r.byte()?;
        let etype: u8 = h % 16;
        let size: usize = (h / 16) as usize;
        if size == 15 {
            let n: u64 = self.r.uvarint()?;
            if n > usize::MAX as u64 {
                return Err(bad("list size range"));
            }
            return Ok((etype, n as usize));
        }
        Ok((etype, size))
    }

    /// Moves behind one value of type `ct`, where it is a single item; else notes down what is to be
    /// passed over from here on.
    fn enter(&mut self, ct: u8, stack: &mut Vec<Pending>) -> (r: TResult<()>)
        requires
            old(self).wf(),
        ensures
            final(self).follows(old(self)),
            ({
                let b = old(self).bytes();
                let after = resumed(b, final(stack)@, final(self).at(), final(self).last());
                match (r, skip_walk(b, old(self).at(), ct, old(self).last())) {
                    (Ok(_), Ok((e, l))) => after == resumed(b, old(stack)@, e, l),
                    (Ok(_), Err(y)) => after == Err::<(int, i16), (PqErrorView, int, i16)>(y),
                    (Err(x), w) => w == Err::<(int, i16), (PqErrorView, int, i16)>(
                        (x@, final(self).at(), final(self).last()),
                    ),
                }
            }),
            r is Ok ==> final(self).at() > old(self).at() || (final(self).at() == old(self).at()
                && idle_steps(final(stack)@) <= idle_steps(old(stack)@) + 1),
    {
        let ghost b = self.bytes();
        let ghost p = self.at();
        let ghost before = stack@;
        proof {
            lemma_skip_bounds(b, p, ct);
        }
        if ct == ctype::BOOL_TRUE || ct == ctype::BOOL_FALSE {
            return Ok(());
        }
        if ct == ctype::I8 || ct == ctype::I16 || ct == ctype::I32 || ct == ctype::I64 {
            let _skipped: u64 = self.r.uvarint()?;
            return Ok(());
        }
        if ct == ctype::DOUBLE {
            let _skipped = self.r.take(8)?;
            return Ok(());
        }
        if ct == ctype::BINARY {
            let n: u64 = self.r.uvarint()?;
            if n > usize::MAX as u64 {
                return Err(bad("skip bin len"));
            }
            let _skipped = self.r.take(n as usize)?;
            return Ok(());
        }
        if ct == ctype::LIST || ct == ctype::SET {
            let (et, count) = self.list_header()?;
            let x = Pending::Values { ct: et, left: count };
            stack.push(x);
            proof {
                lemma_pushed(b, before, x, self.at(), self.last());
            }
            return Ok(());
        }
        if ct == ctype::STRUCT {
            let x = Pending::Fields { outer: self.last_id };
            self.last_id = 0;
            stack.push(x);
            proof {
                lemma_pushed(b, before, x, p, 0);
            }
            return Ok(());
        }
        Err(bad("skip: unknown ctype"))
    }

    /// Moves behind one value of type `ct`. A nested struct counts its field ids from zero and
    /// leaves those of the struct around it as they were. However deep the value is nested, the call
    /// stack does not grow with it.
    pub fn skip(&mut self, ct: u8) -> (r: TResult<()>)
        requires
            old(self).wf(),
        ensures
            final(self).follows(old(self)),
            r is Ok ==> final(self).last() == old(self).last(),
            match (r, skip_at(old(self).bytes(), old(self).at(), ct)) {
                (Ok(_), Ok(e)) => final(self).at() == e,
                (Err(x), Err(y)) => x@ == y,
                _ => false,
            },
            r is Err ==> (final(self).at(), final(self).last()) == skip_stop(
                old(self).bytes(),
                old(self).at(),
                ct,
                old(self).last(),
            ),
    {
        let ghost b = self.bytes();
        let ghost whole = skip_walk(b, self.at(), ct, self.last());
        let mut stack: Vec<Pending> = Vec::new();
        self.enter(ct, &mut stack)?;
        while stack.len() > 0
            invariant
                self.wf(),
                self.follows(old(self)),
                self.bytes() == b,
                b == old(self).bytes(),
                whole == skip_walk(b, old(self).at(), ct, old(self).last()),
                whole == resumed(b, stack@, self.at(), self.last()),
            decreases b.len() - self.at(), idle_steps(stack@),
        {
            let ghost p = self.at();
            let ghost last = self.last();
            let ghost full = stack@;
            let ghost rest = stack@.drop_last();
            let top: Pending = stack[stack.len() - 1];
            let _top = stack.pop();
            assert(stack@ =~= rest);
            proof {
                assert(full =~= rest.push(top));
                lemma_pushed(b, rest, top, p, last);
            }
            match top {
                Pending::Values { ct: et, left } => {
                    if et == ctype::BOOL_TRUE || et == ctype::BOOL_FALSE {
                        proof {
                            lemma_skip_truths(b, p, et, left as nat);
                        }
                    } else if left > 0 {
                        let x = Pending::Values { ct: et, left: left - 1 };
                        stack.push(x);
                        proof {
                            lemma_skip_bounds(b, p, et);
                            match skip_at(b, p, et) {
                                Ok(e) => lemma_pushed(b, rest, x, e, last),
                                Err(_) => lemma_pushed(b, rest, x, p, last),
                            }
                        }
                        self.enter(et, &mut stack)?;
                    }
                },
                Pending::Fields { outer } => {
                    match self.next_field()? {
                        None => {
                            self.last_id = outer;
                        },
                        Some(f) => {
                            let ghost e = self.at();
                            let x = Pending::Fields { outer };
                            stack.push(x);
                            proof {
                                lemma_skip_bounds(b, e, f.ctype);
                                match skip_at(b, e, f.ctype) {
                                    Ok(e2) => lemma_pushed(b, rest, x, e2, f.id),
                                    Err(_) => {},
                                }
                            }
                            self.enter(f.ctype, &mut stack)?;
                        },
                    }
                },
            }
        }
        Ok(())
    }
}

} // verus!
