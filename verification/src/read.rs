use crate::error::Error;
use vstd::bytes::{
    spec_u16_from_le_bytes, spec_u32_from_le_bytes, spec_u64_from_le_bytes, u16_from_le_bytes,
    u32_from_le_bytes, u64_from_le_bytes,
};
use vstd::prelude::*;
use vstd::slice::slice_subrange;

verus! {

/// A cursor-based, zero-copy source of primitive byte patterns over a
/// borrowed buffer. The cursor only ever moves forward; every read first
/// checks that enough bytes remain, and a read that fails for want of data
/// does not move the cursor. Multi-byte values are read in little-endian
/// order.
pub struct SliceReader<'a> {
    slice: &'a [u8],
    pos: usize,
}

impl<'a> SliceReader<'a> {
    /// The whole borrowed input.
    pub closed spec fn input(&self) -> Seq<u8> {
        self.slice@
    }

    /// How many bytes the cursor has passed.
    pub closed spec fn position(&self) -> int {
        self.pos as int
    }

    /// The cursor never passes the end of the input.
    pub open spec fn wf(&self) -> bool {
        0 <= self.position() <= self.input().len()
    }

    /// The bytes not yet consumed.
    pub open spec fn remaining(&self) -> Seq<u8> {
        self.input().subrange(self.position(), self.input().len() as int)
    }

    /// A reader at the start of the given buffer.
    pub fn new(slice: &'a [u8]) -> (r: SliceReader<'a>)
        ensures
            r.wf(),
            r.input() == slice@,
            r.position() == 0,
    {
        SliceReader { slice, pos: 0 }
    }

    /// How many bytes remain past the cursor.
    pub fn remaining_len(&self) -> (n: usize)
        requires
            self.wf(),
        ensures
            n == self.remaining().len(),
            self.input().len() <= usize::MAX,
    {
        self.slice.len() - self.pos
    }

    /// One byte: 0 is false and 1 is true; any other byte is an invalid
    /// scalar and does not move the cursor.
    pub fn read_bool(&mut self) -> (r: Result<bool, Error>)
        requires
            old(self).wf(),
        ensures
            final(self).wf(),
            final(self).input() == old(self).input(),
            old(self).remaining().len() == 0 ==> r == Err::<bool, Error>(Error::OutOfData)
                && *final(self) == *old(self),
            old(self).remaining().len() >= 1 ==> {
                let b = old(self).remaining()[0];
                if b == 0 {
                    r == Ok::<bool, Error>(false) && final(self).position() == old(self).position()
                        + 1
                } else if b == 1 {
                    r == Ok::<bool, Error>(true) && final(self).position() == old(self).position()
                        + 1
                } else {
                    r == Err::<bool, Error>(Error::InvalidScalar) && *final(self) == *old(self)
                }
            },
    {
        if self.remaining_len() < 1 {
            return Err(Error::OutOfData);
        }
        let byte = self.slice[self.pos];
        let value = match byte {
            0 => false,
            1 => true,
            _ => {
                return Err(Error::InvalidScalar);
            },
        };
        self.pos = self.pos + 1;
        Ok(value)
    }

    /// One byte, as it stands.
    pub fn read_u8(&mut self) -> (r: Result<u8, Error>)
        requires
            old(self).wf(),
        ensures
            final(self).wf(),
            final(self).input() == old(self).input(),
            old(self).remaining().len() == 0 ==> r == Err::<u8, Error>(Error::OutOfData) && *final(self) == *old(self),
            old(self).remaining().len() >= 1 ==> r == Ok::<u8, Error>(old(self).remaining()[0])
                && final(self).position() == old(self).position() + 1,
    {
        if self.remaining_len() < 1 {
            return Err(Error::OutOfData);
        }
        let value = self.slice[self.pos];
        self.pos = self.pos + 1;
        Ok(value)
    }

    /// One byte, read as a two's-complement signed value.
    pub fn read_i8(&mut self) -> (r: Result<i8, Error>)
        requires
            old(self).wf(),
        ensures
            final(self).wf(),
            final(self).input() == old(self).input(),
            old(self).remaining().len() == 0 ==> r == Err::<i8, Error>(Error::OutOfData) && *final(self) == *old(self),
            old(self).remaining().len() >= 1 ==> r == Ok::<i8, Error>(
                old(self).remaining()[0] as i8,
            ) && final(self).position() == old(self).position() + 1,
    {
        match self.read_u8() {
            Ok(x) => Ok(x as i8),
            Err(e) => Err(e),
        }
    }

    /// Two bytes, little-endian.
    pub fn read_u16(&mut self) -> (r: Result<u16, Error>)
        requires
            old(self).wf(),
        ensures
            final(self).wf(),
            final(self).input() == old(self).input(),
            old(self).remaining().len() < 2 ==> r == Err::<u16, Error>(Error::OutOfData) && *final(self) == *old(self),
            old(self).remaining().len() >= 2 ==> r == Ok::<u16, Error>(
                spec_u16_from_le_bytes(old(self).remaining().take(2)),
            ) && final(self).position() == old(self).position() + 2,
    {
        if self.remaining_len() < 2 {
            return Err(Error::OutOfData);
        }
        let bytes = slice_subrange(self.slice, self.pos, self.pos + 2);
        proof {
            assert(bytes@ =~= old(self).remaining().take(2));
        }
        let value = u16_from_le_bytes(bytes);
        self.pos = self.pos + 2;
        Ok(value)
    }

    /// Two bytes, little-endian, read as a two's-complement signed value.
    pub fn read_i16(&mut self) -> (r: Result<i16, Error>)
        requires
            old(self).wf(),
        ensures
            final(self).wf(),
            final(self).input() == old(self).input(),
            old(self).remaining().len() < 2 ==> r == Err::<i16, Error>(Error::OutOfData) && *final(self) == *old(self),
            old(self).remaining().len() >= 2 ==> r == Ok::<i16, Error>(
                spec_u16_from_le_bytes(old(self).remaining().take(2)) as i16,
            ) && final(self).position() == old(self).position() + 2,
    {
        match self.read_u16() {
            Ok(x) => Ok(x as i16),
            Err(e) => Err(e),
        }
    }

    /// Four bytes, little-endian.
    pub fn read_u32(&mut self) -> (r: Result<u32, Error>)
        requires
            old(self).wf(),
        ensures
            final(self).wf(),
            final(self).input() == old(self).input(),
            old(self).remaining().len() < 4 ==> r == Err::<u32, Error>(Error::OutOfData) && *final(self) == *old(self),
            old(self).remaining().len() >= 4 ==> r == Ok::<u32, Error>(
                spec_u32_from_le_bytes(old(self).remaining().take(4)),
            ) && final(self).position() == old(self).position() + 4,
    {
        if self.remaining_len() < 4 {
            return Err(Error::OutOfData);
        }
        let bytes = slice_subrange(self.slice, self.pos, self.pos + 4);
        proof {
            assert(bytes@ =~= old(self).remaining().take(4));
        }
        let value = u32_from_le_bytes(bytes);
        self.pos = self.pos + 4;
        Ok(value)
    }

    /// Four bytes, little-endian, read as a two's-complement signed value.
    pub fn read_i32(&mut self) -> (r: Result<i32, Error>)
        requires
            old(self).wf(),
        ensures
            final(self).wf(),
            final(self).input() == old(self).input(),
            old(self).remaining().len() < 4 ==> r == Err::<i32, Error>(Error::OutOfData) && *final(self) == *old(self),
            old(self).remaining().len() >= 4 ==> r == Ok::<i32, Error>(
                spec_u32_from_le_bytes(old(self).remaining().take(4)) as i32,
            ) && final(self).position() == old(self).position() + 4,
    {
        match self.read_u32() {
            Ok(x) => Ok(x as i32),
            Err(e) => Err(e),
        }
    }

    /// Eight bytes, little-endian.
    pub fn read_u64(&mut self) -> (r: Result<u64, Error>)
        requires
            old(self).wf(),
        ensures
            final(self).wf(),
            final(self).input() == old(self).input(),
            old(self).remaining().len() < 8 ==> r == Err::<u64, Error>(Error::OutOfData) && *final(self) == *old(self),
            old(self).remaining().len() >= 8 ==> r == Ok::<u64, Error>(
                spec_u64_from_le_bytes(old(self).remaining().take(8)),
            ) && final(self).position() == old(self).position() + 8,
    {
        if self.remaining_len() < 8 {
            return Err(Error::OutOfData);
        }
        let bytes = slice_subrange(self.slice, self.pos, self.pos + 8);
        proof {
            assert(bytes@ =~= old(self).remaining().take(8));
        }
        let value = u64_from_le_bytes(bytes);
        self.pos = self.pos + 8;
        Ok(value)
    }

    /// Eight bytes, little-endian, read as a two's-complement signed value.
    pub fn read_i64(&mut self) -> (r: Result<i64, Error>)
        requires
            old(self).wf(),
        ensures
            final(self).wf(),
            final(self).input() == old(self).input(),
            old(self).remaining().len() < 8 ==> r == Err::<i64, Error>(Error::OutOfData) && *final(self) == *old(self),
            old(self).remaining().len() >= 8 ==> r == Ok::<i64, Error>(
                spec_u64_from_le_bytes(old(self).remaining().take(8)) as i64,
            ) && final(self).position() == old(self).position() + 8,
    {
        match self.read_u64() {
            Ok(x) => Ok(x as i64),
            Err(e) => Err(e),
        }
    }

    /// Four bytes, little-endian: the IEEE-754 single-precision bit pattern.
    pub fn read_f32(&mut self) -> (r: Result<u32, Error>)
        requires
            old(self).wf(),
        ensures
            final(self).wf(),
            final(self).input() == old(self).input(),
            old(self).remaining().len() < 4 ==> r == Err::<u32, Error>(Error::OutOfData) && *final(self) == *old(self),
            old(self).remaining().len() >= 4 ==> r == Ok::<u32, Error>(
                spec_u32_from_le_bytes(old(self).remaining().take(4)),
            ) && final(self).position() == old(self).position() + 4,
    {
        self.read_u32()
    }

    /// Eight bytes, little-endian: the IEEE-754 double-precision bit pattern.
    pub fn read_f64(&mut self) -> (r: Result<u64, Error>)
        requires
            old(self).wf(),
        ensures
            final(self).wf(),
            final(self).input() == old(self).input(),
            old(self).remaining().len() < 8 ==> r == Err::<u64, Error>(Error::OutOfData) && *final(self) == *old(self),
            old(self).remaining().len() >= 8 ==> r == Ok::<u64, Error>(
                spec_u64_from_le_bytes(old(self).remaining().take(8)),
            ) && final(self).position() == old(self).position() + 8,
    {
        self.read_u64()
    }

    /// A run of `len` raw bytes, borrowed from the input rather than copied.
    pub fn read_bytes(&mut self, len: usize) -> (r: Result<&'a [u8], Error>)
        requires
            old(self).wf(),
        ensures
            final(self).wf(),
            final(self).input() == old(self).input(),
            old(self).remaining().len() < len ==> r == Err::<&'a [u8], Error>(Error::OutOfData)
                && *final(self) == *old(self),
            old(self).remaining().len() >= len ==> {
                &&& r matches Ok(b) && b@ == old(self).remaining().take(len as int)
                &&& final(self).position() == old(self).position() + len
            },
    {
        if self.remaining_len() < len {
            return Err(Error::OutOfData);
        }
        let bytes = slice_subrange(self.slice, self.pos, self.pos + len);
        proof {
            assert(bytes@ =~= old(self).remaining().take(len as int));
        }
        self.pos = self.pos + len;
        Ok(bytes)
    }
}

} // verus!
