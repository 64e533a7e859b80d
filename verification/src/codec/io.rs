//! Byte-level writer and reader used by the codec.

use vstd::prelude::*;
use vstd::slice::slice_subrange;
use super::error::DecodeError;
use super::wire::{be16, be32, byte_i8, i8_byte, u16_at, u32_at};

verus! {

/// Growable output buffer.
pub struct BufWriter(pub Vec<u8>);

impl View for BufWriter {
    type V = Seq<u8>;

    open spec fn view(&self) -> Seq<u8> {
        self.0@
    }
}

impl BufWriter {
    pub fn new() -> (r: BufWriter)
        ensures
            r@ == Seq::<u8>::empty(),
    {
        BufWriter(Vec::with_capacity(64))
    }

    pub fn u8(&mut self, v: u8)
        ensures
            final(self)@ == old(self)@.push(v),
    {
        self.0.push(v);
    }

    pub fn i8(&mut self, v: i8)
        ensures
            final(self)@ == old(self)@.push(i8_byte(v)),
    {
        let b: u8 = if v < 0 {
            (v as i16 + 256) as u8
        } else {
            v as u8
        };
        self.0.push(b);
    }

    pub fn u16(&mut self, v: u16)
        ensures
            final(self)@ == old(self)@ + be16(v),
    {
        self.0.push((v / 256) as u8);
        self.0.push((v % 256) as u8);
        assert(self@ =~= old(self)@ + be16(v));
    }

    pub fn u32(&mut self, v: u32)
        ensures
            final(self)@ == old(self)@ + be32(v),
    {
        self.0.push((v / 0x100_0000) as u8);
        self.0.push(((v / 0x1_0000) % 256) as u8);
        self.0.push(((v / 256) % 256) as u8);
        self.0.push((v % 256) as u8);
        assert(self@ =~= old(self)@ + be32(v));
    }

    pub fn bytes(&mut self, v: &[u8])
        ensures
            final(self)@ == old(self)@ + v@,
    {
        let mut i: usize = 0;
        while i < v.len()
            invariant
                i <= v@.len(),
                self@ == old(self)@ + v@.take(i as int),
            decreases v@.len() - i,
        {
            self.0.push(v[i]);
            i = i + 1;
            assert(self@ =~= old(self)@ + v@.take(i as int));
        }
        assert(v@.take(v@.len() as int) =~= v@);
    }

    pub fn finish(self) -> (r: Vec<u8>)
        ensures
            r@ == self@,
    {
        self.0
    }
}

/// Cursor over an input buffer.
pub struct BufReader<'a> {
    pub buf: &'a [u8],
    pub pos: usize,
}

impl<'a> BufReader<'a> {
    /// The cursor never passes the end of the buffer.
    pub open spec fn wf(&self) -> bool {
        self.pos <= self.buf@.len()
    }

    pub fn new(buf: &'a [u8]) -> (r: BufReader<'a>)
        ensures
            r.buf == buf,
            r.pos == 0,
            r.wf(),
    {
        BufReader { buf, pos: 0 }
    }

    pub fn u8(&mut self) -> (r: Result<u8, DecodeError>)
        requires
            old(self).wf(),
        ensures
            final(self).wf(),
            final(self).buf == old(self).buf,
            old(self).pos + 1 <= old(self).buf@.len() ==> r == Ok::<u8, DecodeError>(
                old(self).buf@[old(self).pos as int],
            ) && final(self).pos == old(self).pos + 1,
            old(self).pos + 1 > old(self).buf@.len() ==> r == Err::<u8, DecodeError>(
                DecodeError::UnexpectedEof,
            ) && final(self).pos == old(self).pos,
    {
        if self.pos < self.buf.len() {
            let b = self.buf[self.pos];
            self.pos = self.pos + 1;
            Ok(b)
        } else {
            Err(DecodeError::UnexpectedEof)
        }
    }

    pub fn i8(&mut self) -> (r: Result<i8, DecodeError>)
        requires
            old(self).wf(),
        ensures
            final(self).wf(),
            final(self).buf == old(self).buf,
            old(self).pos + 1 <= old(self).buf@.len() ==> r == Ok::<i8, DecodeError>(
                byte_i8(old(self).buf@[old(self).pos as int]),
            ) && final(self).pos == old(self).pos + 1,
            old(self).pos + 1 > old(self).buf@.len() ==> r == Err::<i8, DecodeError>(
                DecodeError::UnexpectedEof,
            ) && final(self).pos == old(self).pos,
    {
        let b = self.u8()?;
        let v: i8 = if b >= 128 {
            (b as i16 - 256) as i8
        } else {
            b as i8
        };
        Ok(v)
    }

    pub fn u16(&mut self) -> (r: Result<u16, DecodeError>)
        requires
            old(self).wf(),
        ensures
            final(self).wf(),
            final(self).buf == old(self).buf,
            old(self).pos + 2 <= old(self).buf@.len() ==> r == Ok::<u16, DecodeError>(
                u16_at(old(self).buf@, old(self).pos as int),
            ) && final(self).pos == old(self).pos + 2,
            old(self).pos + 2 > old(self).buf@.len() ==> r == Err::<u16, DecodeError>(
                DecodeError::UnexpectedEof,
            ) && final(self).pos == old(self).pos,
    {
        let b = self.bytes(2)?;
        Ok((b[0] as u16) * 256 + b[1] as u16)
    }

    pub fn u32(&mut self) -> (r: Result<u32, DecodeError>)
        requires
            old(self).wf(),
        ensures
            final(self).wf(),
            final(self).buf == old(self).buf,
            old(self).pos + 4 <= old(self).buf@.len() ==> r == Ok::<u32, DecodeError>(
                u32_at(old(self).buf@, old(self).pos as int),
            ) && final(self).pos == old(self).pos + 4,
            old(self).pos + 4 > old(self).buf@.len() ==> r == Err::<u32, DecodeError>(
                DecodeError::UnexpectedEof,
            ) && final(self).pos == old(self).pos,
    {
        let b = self.bytes(4)?;
        Ok((b[0] as u32) * 0x100_0000 + (b[1] as u32) * 0x1_0000 + (b[2] as u32) * 256 + b[3] as u32)
    }

    /// The next `n` bytes, or `UnexpectedEof` when fewer remain.
    pub fn bytes(&mut self, n: usize) -> (r: Result<&'a [u8], DecodeError>)
        requires
            old(self).wf(),
        ensures
            final(self).wf(),
            final(self).buf == old(self).buf,
            old(self).pos + n <= old(self).buf@.len() ==> (r matches Ok(s) && s@
                == old(self).buf@.subrange(old(self).pos as int, old(self).pos + n)
                && final(self).pos == old(self).pos + n),
            old(self).pos + n > old(self).buf@.len() ==> r == Err::<&'a [u8], DecodeError>(
                DecodeError::UnexpectedEof,
            ) && final(self).pos == old(self).pos,
    {
        if n > self.buf.len() - self.pos {
            return Err(DecodeError::UnexpectedEof);
        }
        let end = self.pos + n;
        let s = slice_subrange(self.buf, self.pos, end);
        self.pos = end;
        Ok(s)
    }
}

} // verus!
