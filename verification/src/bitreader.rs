//! A cursor over the bits of some bytes, least significant bit of each byte first.
use vstd::prelude::*;

use crate::bytes::{bit_at, bit_of, bits_at, read_bits};

verus! {

/// A cursor over bits.
pub struct BitReader<'a> {
    pub c: &'a [u8],
    pub byte: usize,
    pub shift: u8,
}

impl<'a> BitReader<'a> {
    /// The number of the bit under the cursor.
    pub open spec fn pos(&self) -> int {
        8 * self.byte + self.shift
    }

    /// The cursor stands on a bit or right behind the last.
    pub open spec fn wf(&self) -> bool {
        &&& self.shift < 8
        &&& self.byte <= self.c@.len()
        &&& self.byte == self.c@.len() ==> self.shift == 0
    }

    /// Whether `n` bits are left.
    pub fn has(&self, n: u32) -> (r: bool)
        requires
            self.wf(),
            n <= 24,
        ensures
            r == (self.pos() + n <= 8 * self.c@.len()),
    {
        let left: usize = self.c.len() - self.byte;
        if left >= 4 {
            true
        } else {
            self.shift as u32 + n <= 8 * left as u32
        }
    }

    /// Reads one bit.
    pub fn bit(&mut self) -> (r: Option<u32>)
        requires
            old(self).wf(),
        ensures
            final(self).wf(),
            final(self).c == old(self).c,
            match r {
                Some(b) => old(self).pos() < 8 * old(self).c@.len() && b == bit_at(
                    old(self).c@,
                    old(self).pos(),
                ) && final(self).pos() == old(self).pos() + 1,
                None => old(self).pos() >= 8 * old(self).c@.len() && final(self).pos() == old(
                    self,
                ).pos(),
            },
    {
        if self.byte >= self.c.len() {
            return None;
        }
        let b: u64 = bit_of(self.c[self.byte], self.shift);
        assert((8 * self.byte + self.shift) / 8 == self.byte);
        assert((8 * self.byte + self.shift) % 8 == self.shift);
        if self.shift == 7 {
            self.shift = 0;
            self.byte = self.byte + 1;
        } else {
            self.shift = self.shift + 1;
        }
        Some(b as u32)
    }

    /// Reads a number of `n` bits, least significant bit first.
    pub fn bits(&mut self, n: u32) -> (r: Option<u64>)
        requires
            old(self).wf(),
            n <= 24,
        ensures
            final(self).wf(),
            final(self).c == old(self).c,
            match r {
                Some(v) => old(self).pos() + n <= 8 * old(self).c@.len() && v == bits_at(
                    old(self).c@,
                    old(self).pos(),
                    n as nat,
                ) && final(self).pos() == old(self).pos() + n,
                None => old(self).pos() + n > 8 * old(self).c@.len() && final(self).pos() == old(
                    self,
                ).pos(),
            },
    {
        if !self.has(n) {
            return None;
        }
        let v: u64 = read_bits(self.c, self.byte, self.shift, n);
        assert(self.c@.len() == self.c.len());
        let moved: u32 = self.shift as u32 + n;
        self.byte = self.byte + (moved / 8) as usize;
        self.shift = (moved % 8) as u8;
        Some(v)
    }

    /// Moves to the start of the next byte, unless it stands at the start of one.
    pub fn align(&mut self)
        requires
            old(self).wf(),
        ensures
            final(self).wf(),
            final(self).c == old(self).c,
            final(self).shift == 0,
            final(self).byte == (old(self).pos() + 7) / 8,
    {
        assert(self.c@.len() == self.c.len());
        if self.shift > 0 {
            self.shift = 0;
            self.byte = self.byte + 1;
        }
    }
}

} // verus!
