//! Bounds-checked reading and writing of wire-format bytes.
//!
//! A [`Reader`] walks a borrowed buffer from an absolute offset; a [`Writer`]
//! appends to a buffer of fixed capacity. Multi-octet integers are in network
//! byte order. No operation reads or writes outside its buffer: it fails
//! instead, and then leaves the cursor where it was.

use vstd::prelude::*;
use vstd::slice::slice_subrange;
use crate::error::Error;

verus! {

/// The 16-bit integer that `s` holds at `i`, most significant octet first.
pub open spec fn be16(s: Seq<u8>, i: int) -> int {
    s[i] as int * 0x100 + s[i + 1] as int
}

/// The 32-bit integer that `s` holds at `i`, most significant octet first.
pub open spec fn be32(s: Seq<u8>, i: int) -> int {
    be16(s, i) * 0x1_0000 + be16(s, i + 2)
}

/// The 48-bit integer that `s` holds at `i`, most significant octet first.
pub open spec fn be48(s: Seq<u8>, i: int) -> int {
    be16(s, i) * 0x1_0000_0000 + be32(s, i + 2)
}

/// The two octets of `v`, most significant first.
pub open spec fn u16_octets(v: int) -> Seq<u8> {
    seq![(v / 0x100 % 0x100) as u8, (v % 0x100) as u8]
}

/// The four octets of `v`, most significant first.
pub open spec fn u32_octets(v: int) -> Seq<u8> {
    u16_octets(v / 0x1_0000) + u16_octets(v % 0x1_0000)
}

/// The six octets of `v`, most significant first.
pub open spec fn u48_octets(v: int) -> Seq<u8> {
    u16_octets(v / 0x1_0000_0000) + u32_octets(v % 0x1_0000_0000)
}

/// Reading back what `u16_octets` wrote gives the value, wherever the octets
/// stand in a buffer.
pub proof fn lemma_be16_of_octets(s: Seq<u8>, i: int, v: int)
    requires
        0 <= v < 0x1_0000,
        0 <= i,
        i + 2 <= s.len(),
        s.subrange(i, i + 2) == u16_octets(v),
    ensures
        be16(s, i) == v,
{
    let o = u16_octets(v);
    assert(s[i] == s.subrange(i, i + 2)[0]);
    assert(s[i + 1] == s.subrange(i, i + 2)[1]);
    assert(o[0] == (v / 0x100 % 0x100) as u8);
    assert(o[1] == (v % 0x100) as u8);
}

/// Reading back what `u32_octets` wrote gives the value.
pub proof fn lemma_be32_of_octets(s: Seq<u8>, i: int, v: int)
    requires
        0 <= v < 0x1_0000_0000,
        0 <= i,
        i + 4 <= s.len(),
        s.subrange(i, i + 4) == u32_octets(v),
    ensures
        be32(s, i) == v,
{
    let part = s.subrange(i, i + 4);
    assert(part.subrange(0, 2) =~= u16_octets(v / 0x1_0000));
    assert(part.subrange(2, 4) =~= u16_octets(v % 0x1_0000));
    assert(s.subrange(i, i + 2) =~= part.subrange(0, 2));
    assert(s.subrange(i + 2, i + 4) =~= part.subrange(2, 4));
    lemma_be16_of_octets(s, i, v / 0x1_0000);
    lemma_be16_of_octets(s, i + 2, v % 0x1_0000);
}

/// Reading back what `u48_octets` wrote gives the value.
pub proof fn lemma_be48_of_octets(s: Seq<u8>, i: int, v: int)
    requires
        0 <= v < 0x1_0000_0000_0000,
        0 <= i,
        i + 6 <= s.len(),
        s.subrange(i, i + 6) == u48_octets(v),
    ensures
        be48(s, i) == v,
{
    let part = s.subrange(i, i + 6);
    assert(part.subrange(0, 2) =~= u16_octets(v / 0x1_0000_0000));
    assert(part.subrange(2, 6) =~= u32_octets(v % 0x1_0000_0000));
    assert(s.subrange(i, i + 2) =~= part.subrange(0, 2));
    assert(s.subrange(i + 2, i + 6) =~= part.subrange(2, 6));
    lemma_be16_of_octets(s, i, v / 0x1_0000_0000);
    lemma_be32_of_octets(s, i + 2, v % 0x1_0000_0000);
}

/// A read position in a borrowed buffer.
pub struct Reader<'a> {
    buf: &'a [u8],
    pos: usize,
}

impl<'a> Reader<'a> {
    /// The whole buffer, from its first octet.
    pub closed spec fn bytes(&self) -> Seq<u8> {
        self.buf@
    }

    /// The absolute offset of the next octet to read.
    pub closed spec fn offset(&self) -> int {
        self.pos as int
    }

    /// A reader at the start of `buf`.
    pub fn new(buf: &'a [u8]) -> (r: Self)
        ensures
            r.bytes() == buf@,
            r.offset() == 0,
    {
        Reader { buf, pos: 0 }
    }

    /// A reader of `buf` at `offset`, which may lie behind the end: every
    /// read then fails.
    pub fn at(buf: &'a [u8], offset: usize) -> (r: Self)
        ensures
            r.bytes() == buf@,
            r.offset() == offset,
    {
        Reader { buf, pos: offset }
    }

    /// The absolute offset of the next octet to read.
    pub fn position(&self) -> (p: usize)
        ensures
            p == self.offset(),
    {
        self.pos
    }

    /// The buffer that is read.
    pub fn buffer(&self) -> (b: &'a [u8])
        ensures
            b@ == self.bytes(),
    {
        self.buf
    }

    /// The number of octets from the position to the end.
    pub fn remaining(&self) -> (n: usize)
        ensures
            n == if self.offset() <= self.bytes().len() {
                self.bytes().len() - self.offset()
            } else {
                0
            },
    {
        if self.pos <= self.buf.len() {
            self.buf.len() - self.pos
        } else {
            0
        }
    }

    /// Moves the position to `offset`.
    pub fn seek(&mut self, offset: usize)
        ensures
            final(self).bytes() == old(self).bytes(),
            final(self).offset() == offset,
    {
        self.pos = offset;
    }

    /// Reads one octet. Fails with `ShortRead` exactly if none is left.
    pub fn read_u8(&mut self) -> (r: Result<u8, Error>)
        ensures
            final(self).bytes() == old(self).bytes(),
            old(self).offset() + 1 <= old(self).bytes().len() ==> r == Ok::<u8, Error>(
                old(self).bytes()[old(self).offset()],
            ) && final(self).offset() == old(self).offset() + 1,
            old(self).offset() + 1 > old(self).bytes().len() ==> r == Err::<u8, Error>(
                Error::ShortRead,
            ) && final(self).offset() == old(self).offset(),
    {
        if self.remaining() < 1 {
            return Err(Error::ShortRead);
        }
        let v = self.buf[self.pos];
        self.pos = self.pos + 1;
        Ok(v)
    }

    /// Reads a 16-bit integer. Fails with `ShortRead` exactly if fewer than
    /// two octets are left.
    pub fn read_u16(&mut self) -> (r: Result<u16, Error>)
        ensures
            final(self).bytes() == old(self).bytes(),
            old(self).offset() + 2 <= old(self).bytes().len() ==> r.is_ok() && r.unwrap() == be16(
                old(self).bytes(),
                old(self).offset(),
            ) && final(self).offset() == old(self).offset() + 2,
            old(self).offset() + 2 > old(self).bytes().len() ==> r == Err::<u16, Error>(
                Error::ShortRead,
            ) && final(self).offset() == old(self).offset(),
    {
        if self.remaining() < 2 {
            return Err(Error::ShortRead);
        }
        let hi: u16 = self.buf[self.pos] as u16;
        let lo: u16 = self.buf[self.pos + 1] as u16;
        self.pos = self.pos + 2;
        Ok(hi * 0x100 + lo)
    }

    /// Reads a 32-bit integer. Fails with `ShortRead` exactly if fewer than
    /// four octets are left.
    pub fn read_u32(&mut self) -> (r: Result<u32, Error>)
        ensures
            final(self).bytes() == old(self).bytes(),
            old(self).offset() + 4 <= old(self).bytes().len() ==> r.is_ok() && r.unwrap() == be32(
                old(self).bytes(),
                old(self).offset(),
            ) && final(self).offset() == old(self).offset() + 4,
            old(self).offset() + 4 > old(self).bytes().len() ==> r == Err::<u32, Error>(
                Error::ShortRead,
            ) && final(self).offset() == old(self).offset(),
    {
        if self.remaining() < 4 {
            return Err(Error::ShortRead);
        }
        let a: u32 = self.buf[self.pos] as u32;
        let b: u32 = self.buf[self.pos + 1] as u32;
        let c: u32 = self.buf[self.pos + 2] as u32;
        let d: u32 = self.buf[self.pos + 3] as u32;
        self.pos = self.pos + 4;
        Ok((a * 0x100 + b) * 0x1_0000 + (c * 0x100 + d))
    }

    /// Reads a 48-bit integer. Fails with `ShortRead` exactly if fewer than
    /// six octets are left.
    pub fn read_u48(&mut self) -> (r: Result<u64, Error>)
        ensures
            final(self).bytes() == old(self).bytes(),
            old(self).offset() + 6 <= old(self).bytes().len() ==> r.is_ok() && r.unwrap() == be48(
                old(self).bytes(),
                old(self).offset(),
            ) && final(self).offset() == old(self).offset() + 6,
            old(self).offset() + 6 > old(self).bytes().len() ==> r == Err::<u64, Error>(
                Error::ShortRead,
            ) && final(self).offset() == old(self).offset(),
    {
        if self.remaining() < 6 {
            return Err(Error::ShortRead);
        }
        let hi: u64 = self.buf[self.pos] as u64 * 0x100 + self.buf[self.pos + 1] as u64;
        let a: u64 = self.buf[self.pos + 2] as u64;
        let b: u64 = self.buf[self.pos + 3] as u64;
        let c: u64 = self.buf[self.pos + 4] as u64;
        let d: u64 = self.buf[self.pos + 5] as u64;
        self.pos = self.pos + 6;
        Ok(hi * 0x1_0000_0000 + ((a * 0x100 + b) * 0x1_0000 + (c * 0x100 + d)))
    }

    /// Reads `n` octets. Fails with `ShortRead` exactly if fewer than `n` are
    /// left.
    pub fn read_bytes(&mut self, n: usize) -> (r: Result<Vec<u8>, Error>)
        ensures
            final(self).bytes() == old(self).bytes(),
            old(self).offset() + n <= old(self).bytes().len() ==> r.is_ok() && r.unwrap()@
                == old(self).bytes().subrange(old(self).offset(), old(self).offset() + n)
                && final(self).offset() == old(self).offset() + n,
            old(self).offset() + n > old(self).bytes().len() ==> r == Err::<Vec<u8>, Error>(
                Error::ShortRead,
            ) && final(self).offset() == old(self).offset(),
    {
        if self.pos > self.buf.len() || self.buf.len() - self.pos < n {
            return Err(Error::ShortRead);
        }
        let part = slice_subrange(self.buf, self.pos, self.pos + n);
        let mut out: Vec<u8> = Vec::new();
        out.extend_from_slice(part);
        assert(out@ =~= part@);
        self.pos = self.pos + n;
        Ok(out)
    }
}

/// An append position in a buffer of fixed capacity.
pub struct Writer {
    buf: Vec<u8>,
    limit: usize,
}

impl View for Writer {
    type V = Seq<u8>;

    /// The octets written so far; the write offset is their number.
    closed spec fn view(&self) -> Seq<u8> {
        self.buf@
    }
}

impl Writer {
    /// The number of octets that the buffer can hold.
    pub closed spec fn capacity(&self) -> nat {
        self.limit as nat
    }

    /// An empty buffer that holds at most `capacity` octets.
    pub fn new(capacity: usize) -> (w: Self)
        ensures
            w@ == Seq::<u8>::empty(),
            w.capacity() == capacity,
    {
        Writer { buf: Vec::new(), limit: capacity }
    }

    /// The write offset: the number of octets written so far.
    pub fn position(&self) -> (p: usize)
        ensures
            p == self@.len(),
    {
        self.buf.len()
    }

    /// The number of octets that the buffer can hold.
    pub fn limit(&self) -> (n: usize)
        ensures
            n == self.capacity(),
    {
        self.limit
    }

    /// The octets written so far.
    pub fn as_slice(&self) -> (s: &[u8])
        ensures
            s@ == self@,
    {
        self.buf.as_slice()
    }

    /// Gives up the buffer.
    pub fn into_bytes(self) -> (v: Vec<u8>)
        ensures
            v@ == self@,
    {
        self.buf
    }

    /// Whether `n` more octets fit.
    pub fn fits(&self, n: usize) -> (b: bool)
        ensures
            b == (self@.len() + n <= self.capacity()),
    {
        self.buf.len() <= self.limit && n <= self.limit - self.buf.len()
    }

    /// Forgets what was written from offset `len` on; does nothing if less
    /// was written.
    pub fn rewind(&mut self, len: usize)
        ensures
            final(self).capacity() == old(self).capacity(),
            len <= old(self)@.len() ==> final(self)@ == old(self)@.subrange(0, len as int),
            len > old(self)@.len() ==> final(self)@ == old(self)@,
    {
        self.buf.truncate(len);
    }

    /// Appends one octet. Fails with `BufferTooSmall` exactly if the buffer
    /// is full.
    pub fn write_u8(&mut self, v: u8) -> (r: Result<(), Error>)
        ensures
            final(self).capacity() == old(self).capacity(),
            old(self)@.len() + 1 <= old(self).capacity() ==> r.is_ok() && final(self)@ == old(
                self,
            )@.push(v),
            old(self)@.len() + 1 > old(self).capacity() ==> r == Err::<(), Error>(
                Error::BufferTooSmall,
            ) && final(self)@ == old(self)@,
    {
        if !self.fits(1) {
            return Err(Error::BufferTooSmall);
        }
        self.buf.push(v);
        Ok(())
    }

    /// Appends a 16-bit integer. Fails with `BufferTooSmall` exactly if fewer
    /// than two octets are free.
    pub fn write_u16(&mut self, v: u16) -> (r: Result<(), Error>)
        ensures
            final(self).capacity() == old(self).capacity(),
            old(self)@.len() + 2 <= old(self).capacity() ==> r.is_ok() && final(self)@ == old(
                self,
            )@ + u16_octets(v as int),
            old(self)@.len() + 2 > old(self).capacity() ==> r == Err::<(), Error>(
                Error::BufferTooSmall,
            ) && final(self)@ == old(self)@,
    {
        if !self.fits(2) {
            return Err(Error::BufferTooSmall);
        }
        self.buf.push((v / 0x100) as u8);
        self.buf.push((v % 0x100) as u8);
        assert(self.buf@ =~= old(self)@ + u16_octets(v as int));
        Ok(())
    }

    /// Appends a 32-bit integer. Fails with `BufferTooSmall` exactly if fewer
    /// than four octets are free.
    pub fn write_u32(&mut self, v: u32) -> (r: Result<(), Error>)
        ensures
            final(self).capacity() == old(self).capacity(),
            old(self)@.len() + 4 <= old(self).capacity() ==> r.is_ok() && final(self)@ == old(
                self,
            )@ + u32_octets(v as int),
            old(self)@.len() + 4 > old(self).capacity() ==> r == Err::<(), Error>(
                Error::BufferTooSmall,
            ) && final(self)@ == old(self)@,
    {
        if !self.fits(4) {
            return Err(Error::BufferTooSmall);
        }
        let hi: u32 = v / 0x1_0000;
        let lo: u32 = v % 0x1_0000;
        self.buf.push((hi / 0x100) as u8);
        self.buf.push((hi % 0x100) as u8);
        self.buf.push((lo / 0x100) as u8);
        self.buf.push((lo % 0x100) as u8);
        assert(self.buf@ =~= old(self)@ + u32_octets(v as int));
        Ok(())
    }

    /// Appends the 48 low bits of `v`. Fails with `BufferTooSmall` exactly if
    /// fewer than six octets are free.
    pub fn write_u48(&mut self, v: u64) -> (r: Result<(), Error>)
        requires
            v < 0x1_0000_0000_0000,
        ensures
            final(self).capacity() == old(self).capacity(),
            old(self)@.len() + 6 <= old(self).capacity() ==> r.is_ok() && final(self)@ == old(
                self,
            )@ + u48_octets(v as int),
            old(self)@.len() + 6 > old(self).capacity() ==> r == Err::<(), Error>(
                Error::BufferTooSmall,
            ) && final(self)@ == old(self)@,
    {
        if !self.fits(6) {
            return Err(Error::BufferTooSmall);
        }
        let top: u64 = v / 0x1_0000_0000;
        let rest: u64 = v % 0x1_0000_0000;
        let hi: u64 = rest / 0x1_0000;
        let lo: u64 = rest % 0x1_0000;
        self.buf.push((top / 0x100) as u8);
        self.buf.push((top % 0x100) as u8);
        self.buf.push((hi / 0x100) as u8);
        self.buf.push((hi % 0x100) as u8);
        self.buf.push((lo / 0x100) as u8);
        self.buf.push((lo % 0x100) as u8);
        assert(self.buf@ =~= old(self)@ + u48_octets(v as int));
        Ok(())
    }

    /// Appends `data`. Fails with `BufferTooSmall` exactly if it does not
    /// fit.
    pub fn write_bytes(&mut self, data: &[u8]) -> (r: Result<(), Error>)
        ensures
            final(self).capacity() == old(self).capacity(),
            old(self)@.len() + data@.len() <= old(self).capacity() ==> r.is_ok() && final(self)@
                == old(self)@ + data@,
            old(self)@.len() + data@.len() > old(self).capacity() ==> r == Err::<(), Error>(
                Error::BufferTooSmall,
            ) && final(self)@ == old(self)@,
    {
        if !self.fits(data.len()) {
            return Err(Error::BufferTooSmall);
        }
        self.buf.extend_from_slice(data);
        assert(self.buf@ =~= old(self)@ + data@);
        Ok(())
    }
}

/// Appends a 16-bit integer, most significant octet first.
pub fn put_u16(out: &mut Vec<u8>, v: u16)
    ensures
        final(out)@ == old(out)@ + u16_octets(v as int),
{
    out.push((v / 0x100) as u8);
    out.push((v % 0x100) as u8);
    assert(out@ =~= old(out)@ + u16_octets(v as int));
}

/// Appends a 32-bit integer, most significant octet first.
pub fn put_u32(out: &mut Vec<u8>, v: u32)
    ensures
        final(out)@ == old(out)@ + u32_octets(v as int),
{
    put_u16(out, (v / 0x1_0000) as u16);
    put_u16(out, (v % 0x1_0000) as u16);
    assert(out@ =~= old(out)@ + u32_octets(v as int));
}

/// Appends a 48-bit integer, most significant octet first.
pub fn put_u48(out: &mut Vec<u8>, v: u64)
    requires
        v < 0x1_0000_0000_0000,
    ensures
        final(out)@ == old(out)@ + u48_octets(v as int),
{
    put_u16(out, (v / 0x1_0000_0000) as u16);
    put_u32(out, (v % 0x1_0000_0000) as u32);
    assert(out@ =~= old(out)@ + u48_octets(v as int));
}

/// Appends `data`.
pub fn put_bytes(out: &mut Vec<u8>, data: &[u8])
    ensures
        final(out)@ == old(out)@ + data@,
{
    out.extend_from_slice(data);
    assert(out@ =~= old(out)@ + data@);
}

} // verus!
