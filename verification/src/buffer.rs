//! Bounds-checked, forward-only reader over an immutable byte buffer.

use vstd::prelude::*;

verus! {

use crate::error::DecodeError;
use vstd::slice::slice_subrange;

/// A read position over a borrowed byte buffer.
///
/// The buffer itself never changes; reads advance the position and shrink
/// the remaining-byte count, and `reset` rewinds the position to zero.
pub struct Reader<'a> {
    buf: &'a [u8],
    pos: usize,
    remain: usize,
}

impl<'a> Reader<'a> {
    /// Well-formedness: the remaining count mirrors the distance from the
    /// read position to the end of the buffer.
    pub closed spec fn inv(self) -> bool {
        self.pos + self.remain == self.buf@.len() && self.buf@.len() <= usize::MAX
    }

    /// The whole underlying buffer, independent of the read position.
    pub closed spec fn all_bytes(self) -> Seq<u8> {
        self.buf@
    }

    /// The bytes at and after the read position: what reads consume next.
    pub closed spec fn rest(self) -> Seq<u8> {
        self.buf@.subrange(self.pos as int, self.buf@.len() as int)
    }

    /// Create a reader positioned at the start of `data`.
    pub fn new(data: &'a [u8]) -> (r: Reader<'a>)
        ensures
            r.inv(),
            r.all_bytes() == data@,
            r.rest() == data@,
    {
        let length = data.len();
        let r = Reader { buf: data, pos: 0, remain: length };
        proof {
            assert(r.rest() =~= data@);
        }
        r
    }

    /// Rewind the read position to zero, re-exposing the whole buffer.
    pub fn reset(&mut self)
        requires
            old(self).inv(),
        ensures
            final(self).inv(),
            final(self).all_bytes() == old(self).all_bytes(),
            final(self).rest() == final(self).all_bytes(),
    {
        self.pos = 0;
        self.remain = self.buf.len();
        proof {
            assert(self.rest() =~= self.all_bytes());
        }
    }

    /// The number of bytes left to read.
    pub fn remaining(&self) -> (n: usize)
        requires
            self.inv(),
        ensures
            n == self.rest().len(),
    {
        self.remain
    }

    /// Advance the position by `n` bytes without looking at them.
    pub fn skip(&mut self, n: usize) -> (r: Result<(), DecodeError>)
        requires
            old(self).inv(),
        ensures
            final(self).inv(),
            final(self).all_bytes() == old(self).all_bytes(),
            n <= old(self).rest().len() ==> (r is Ok && final(self).rest() == old(self).rest().skip(
                n as int,
            )),
            n > old(self).rest().len() ==> (r == Err::<(), DecodeError>(DecodeError::UnexpectedEof)
                && *final(self) == *old(self)),
    {
        if self.remain < n {
            return Err(DecodeError::UnexpectedEof);
        }
        self.pos = self.pos + n;
        self.remain = self.remain - n;
        proof {
            assert(self.rest() =~= old(self).rest().skip(n as int));
        }
        Ok(())
    }

    /// True exactly when no bytes remain.
    pub fn is_end(&self) -> (b: bool)
        requires
            self.inv(),
        ensures
            b == (self.rest().len() == 0),
    {
        self.remain == 0
    }

    /// Read one byte and advance past it.
    pub fn read_byte(&mut self) -> (r: Result<u8, DecodeError>)
        requires
            old(self).inv(),
        ensures
            final(self).inv(),
            final(self).all_bytes() == old(self).all_bytes(),
            old(self).rest().len() > 0 ==> (r matches Ok(b) && b == old(self).rest()[0]
                && final(self).rest() == old(self).rest().skip(1)),
            old(self).rest().len() == 0 ==> (r == Err::<u8, DecodeError>(
                DecodeError::UnexpectedEof,
            ) && *final(self) == *old(self)),
    {
        if self.remain < 1 {
            return Err(DecodeError::UnexpectedEof);
        }
        let b = self.buf[self.pos];
        self.pos = self.pos + 1;
        self.remain = self.remain - 1;
        proof {
            assert(self.rest() =~= old(self).rest().skip(1));
        }
        Ok(b)
    }

    /// Read exactly `n` bytes as a borrowed sub-slice of the buffer.
    pub fn read_bytes(&mut self, n: usize) -> (r: Result<&'a [u8], DecodeError>)
        requires
            old(self).inv(),
        ensures
            final(self).inv(),
            final(self).all_bytes() == old(self).all_bytes(),
            n <= old(self).rest().len() ==> (r matches Ok(s) && s@ == old(self).rest().take(
                n as int,
            ) && final(self).rest() == old(self).rest().skip(n as int)),
            n > old(self).rest().len() ==> (r == Err::<&'a [u8], DecodeError>(
                DecodeError::UnexpectedEof,
            ) && *final(self) == *old(self)),
    {
        if self.remain < n {
            return Err(DecodeError::UnexpectedEof);
        }
        let s = slice_subrange(self.buf, self.pos, self.pos + n);
        self.pos = self.pos + n;
        self.remain = self.remain - n;
        proof {
            assert(s@ =~= old(self).rest().take(n as int));
            assert(self.rest() =~= old(self).rest().skip(n as int));
        }
        Ok(s)
    }

    /// Read all remaining bytes; never fails.
    pub fn read_all_bytes(&mut self) -> (r: Result<&'a [u8], DecodeError>)
        requires
            old(self).inv(),
        ensures
            final(self).inv(),
            final(self).all_bytes() == old(self).all_bytes(),
            r matches Ok(s) && s@ == old(self).rest(),
            final(self).rest().len() == 0,
    {
        let n = self.remain;
        let r = self.read_bytes(n);
        proof {
            assert(old(self).rest().take(n as int) =~= old(self).rest());
        }
        r
    }

    /// Fill the caller-provided destination, consuming exactly `dst.len()`
    /// bytes; the destination keeps its length.
    pub fn read_bytes_into(&mut self, dst: &mut Vec<u8>) -> (r: Result<(), DecodeError>)
        requires
            old(self).inv(),
        ensures
            final(self).inv(),
            final(self).all_bytes() == old(self).all_bytes(),
            old(dst).len() <= old(self).rest().len() ==> (r is Ok && final(dst)@ == old(self).rest().take(
                old(dst)@.len() as int,
            ) && final(self).rest() == old(self).rest().skip(old(dst)@.len() as int)),
            old(dst).len() > old(self).rest().len() ==> (r == Err::<(), DecodeError>(
                DecodeError::UnexpectedEof,
            ) && *final(self) == *old(self) && *final(dst) == *old(dst)),
    {
        let n = dst.len();
        match self.read_bytes(n) {
            Ok(s) => {
                *dst = vstd::slice::slice_to_vec(s);
                Ok(())
            },
            Err(e) => Err(e),
        }
    }
}

} // verus!
