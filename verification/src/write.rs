use crate::error::Error;
use vstd::bytes::{
    spec_u16_to_le_bytes, spec_u32_to_le_bytes, spec_u64_to_le_bytes, u16_to_le_bytes,
    u32_to_le_bytes, u64_to_le_bytes,
};
use vstd::prelude::*;

verus! {

/// An append-only in-memory sink for primitive byte patterns. Multi-byte
/// values are appended in little-endian order. An in-memory sink cannot fail;
/// the operations still return a result so that callers written against an
/// I/O-backed sink keep the same calling convention.
pub struct VecWriter {
    buf: Vec<u8>,
}

impl View for VecWriter {
    type V = Seq<u8>;

    closed spec fn view(&self) -> Seq<u8> {
        self.buf@
    }
}

impl VecWriter {
    /// A writer with an empty output.
    pub fn new() -> (w: VecWriter)
        ensures
            w@ == Seq::<u8>::empty(),
    {
        VecWriter { buf: Vec::new() }
    }

    /// Drain the writer, handing out everything written so far.
    pub fn into_vec(self) -> (out: Vec<u8>)
        ensures
            out@ == self@,
    {
        self.buf
    }

    /// One byte: 1 for true, 0 for false.
    pub fn write_bool(&mut self, value: bool) -> (r: Result<(), Error>)
        ensures
            r is Ok,
            final(self)@ == old(self)@ + seq![(if value { 1u8 } else { 0u8 })],
    {
        if value {
            self.buf.push(1);
        } else {
            self.buf.push(0);
        }
        Ok(())
    }

    /// One byte, as given.
    pub fn write_u8(&mut self, value: u8) -> (r: Result<(), Error>)
        ensures
            r is Ok,
            final(self)@ == old(self)@ + seq![value],
    {
        self.buf.push(value);
        Ok(())
    }

    /// One byte: the value's two's-complement pattern.
    pub fn write_i8(&mut self, value: i8) -> (r: Result<(), Error>)
        ensures
            r is Ok,
            final(self)@ == old(self)@ + seq![(value as u8)],
    {
        self.buf.push(value as u8);
        Ok(())
    }

    /// Two bytes, little-endian.
    pub fn write_u16(&mut self, value: u16) -> (r: Result<(), Error>)
        ensures
            r is Ok,
            final(self)@ == old(self)@ + spec_u16_to_le_bytes(value),
    {
        let mut bytes = u16_to_le_bytes(value);
        self.buf.append(&mut bytes);
        Ok(())
    }

    /// Two bytes: the value's two's-complement pattern, little-endian.
    pub fn write_i16(&mut self, value: i16) -> (r: Result<(), Error>)
        ensures
            r is Ok,
            final(self)@ == old(self)@ + spec_u16_to_le_bytes(value as u16),
    {
        self.write_u16(value as u16)
    }

    /// Four bytes, little-endian.
    pub fn write_u32(&mut self, value: u32) -> (r: Result<(), Error>)
        ensures
            r is Ok,
            final(self)@ == old(self)@ + spec_u32_to_le_bytes(value),
    {
        let mut bytes = u32_to_le_bytes(value);
        self.buf.append(&mut bytes);
        Ok(())
    }

    /// Four bytes: the value's two's-complement pattern, little-endian.
    pub fn write_i32(&mut self, value: i32) -> (r: Result<(), Error>)
        ensures
            r is Ok,
            final(self)@ == old(self)@ + spec_u32_to_le_bytes(value as u32),
    {
        self.write_u32(value as u32)
    }

    /// Eight bytes, little-endian.
    pub fn write_u64(&mut self, value: u64) -> (r: Result<(), Error>)
        ensures
            r is Ok,
            final(self)@ == old(self)@ + spec_u64_to_le_bytes(value),
    {
        let mut bytes = u64_to_le_bytes(value);
        self.buf.append(&mut bytes);
        Ok(())
    }

    /// Eight bytes: the value's two's-complement pattern, little-endian.
    pub fn write_i64(&mut self, value: i64) -> (r: Result<(), Error>)
        ensures
            r is Ok,
            final(self)@ == old(self)@ + spec_u64_to_le_bytes(value as u64),
    {
        self.write_u64(value as u64)
    }

    /// Four bytes, little-endian: the IEEE-754 single-precision bit pattern.
    pub fn write_f32(&mut self, bits: u32) -> (r: Result<(), Error>)
        ensures
            r is Ok,
            final(self)@ == old(self)@ + spec_u32_to_le_bytes(bits),
    {
        self.write_u32(bits)
    }

    /// Eight bytes, little-endian: the IEEE-754 double-precision bit pattern.
    pub fn write_f64(&mut self, bits: u64) -> (r: Result<(), Error>)
        ensures
            r is Ok,
            final(self)@ == old(self)@ + spec_u64_to_le_bytes(bits),
    {
        self.write_u64(bits)
    }

    /// A raw byte run, as given, with no header.
    pub fn write_bytes(&mut self, value: &[u8]) -> (r: Result<(), Error>)
        ensures
            r is Ok,
            final(self)@ == old(self)@ + value@,
    {
        self.buf.extend_from_slice(value);
        Ok(())
    }
}

} // verus!
