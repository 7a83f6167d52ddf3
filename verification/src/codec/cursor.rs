//! Reading the primitive encodings from a byte slice.
use vstd::prelude::*;
use std::string::FromUtf8Error;
use vstd::slice::{slice_subrange, slice_to_vec};
use vstd::utf8::{decode_utf8, valid_utf8};
use crate::codec::error::Error;
use crate::codec::primitives::{
    parse_blob, parse_pair, parse_text, parse_u16, parse_u32,
    parse_u8, parse_varbyte, parse_varbyte_from, parse_varint,
};

verus! {

/// `std::string::FromUtf8Error`, which is carried and never looked into.
#[verifier::external_type_specification]
#[verifier::external_body]
pub struct ExFromUtf8Error(FromUtf8Error);

/// `String::from_utf8`: the string that the bytes spell, or a failure where
/// they are not valid UTF-8.
#[verifier::external_body]
pub(crate) fn string_from_utf8(bytes: Vec<u8>) -> (text: Result<String, FromUtf8Error>)
    ensures
        text is Ok <==> valid_utf8(bytes@),
        text matches Ok(t) ==> t@ == decode_utf8(bytes@),
{
    String::from_utf8(bytes)
}

/// A position in a byte slice. What lies between the position and the end
/// of the slice is still to be read.
pub struct Cursor<'a> {
    pub buf: &'a [u8],
    pub pos: usize,
}

/// `after` is `before` moved on by `n` bytes.
pub open spec fn moved(before: Cursor, after: Cursor, n: int) -> bool {
    &&& 0 <= n
    &&& after.wf()
    &&& after.buf == before.buf
    &&& after.pos == before.pos + n
    &&& after.rest() == before.rest().skip(n)
}

impl<'a> Cursor<'a> {
    /// The position lies inside the slice or at its end.
    pub open spec fn wf(&self) -> bool {
        self.pos <= self.buf@.len() <= usize::MAX
    }

    /// The bytes that are still to be read.
    pub open spec fn rest(&self) -> Seq<u8> {
        self.buf@.skip(self.pos as int)
    }

    /// A cursor at the start of `buf`.
    pub fn new(buf: &'a [u8]) -> (c: Self)
        ensures
            c.wf(),
            c.buf == buf,
            c.pos == 0,
            c.rest() == buf@,
    {
        let _: usize = buf.len();
        assert(buf@.skip(0) =~= buf@);
        Cursor { buf, pos: 0 }
    }

    /// The number of bytes that are still to be read.
    pub fn remaining(&self) -> (n: usize)
        requires
            self.wf(),
        ensures
            n == self.rest().len(),
    {
        self.buf.len() - self.pos
    }

    /// Moves on by `n` bytes without reading them.
    pub fn advance(&mut self, n: usize)
        requires
            old(self).wf(),
            n <= old(self).rest().len(),
        ensures
            moved(*old(self), *final(self), n as int),
    {
        self.pos = self.pos + n;
        assert(self.buf@.skip(self.pos as int) =~= old(self).rest().skip(n as int));
    }

    /// The next `n` bytes as a slice; the cursor moves past them.
    pub fn take(&mut self, n: usize) -> (part: &'a [u8])
        requires
            old(self).wf(),
            n <= old(self).rest().len(),
        ensures
            moved(*old(self), *final(self), n as int),
            part@ == old(self).rest().take(n as int),
    {
        let part = slice_subrange(self.buf, self.pos, self.pos + n);
        assert(part@ =~= self.rest().take(n as int));
        self.advance(n);
        part
    }

    pub fn read_u8(&mut self) -> (r: Result<u8, Error>)
        requires
            old(self).wf(),
        ensures
            match parse_u8(old(self).rest()) {
                Ok((v, n)) => r == Ok::<u8, Error>(v) && moved(*old(self), *final(self), n),
                Err(e) => r == Err::<u8, Error>(e) && *final(self) == *old(self),
            },
    {
        if self.remaining() < 1 {
            return Err(Error::BoundaryCrossed);
        }
        let v: u8 = self.buf[self.pos];
        self.advance(1);
        Ok(v)
    }

    pub fn read_u16(&mut self) -> (r: Result<u16, Error>)
        requires
            old(self).wf(),
        ensures
            match parse_u16(old(self).rest()) {
                Ok((v, n)) => r == Ok::<u16, Error>(v) && moved(*old(self), *final(self), n),
                Err(e) => r == Err::<u16, Error>(e) && *final(self) == *old(self),
            },
    {
        if self.remaining() < 2 {
            return Err(Error::BoundaryCrossed);
        }
        let hi: u16 = self.buf[self.pos] as u16;
        let lo: u16 = self.buf[self.pos + 1] as u16;
        self.advance(2);
        Ok(hi * 256 + lo)
    }

    pub fn read_u32(&mut self) -> (r: Result<u32, Error>)
        requires
            old(self).wf(),
        ensures
            match parse_u32(old(self).rest()) {
                Ok((v, n)) => r == Ok::<u32, Error>(v) && moved(*old(self), *final(self), n),
                Err(e) => r == Err::<u32, Error>(e) && *final(self) == *old(self),
            },
    {
        if self.remaining() < 4 {
            return Err(Error::BoundaryCrossed);
        }
        let b0: u32 = self.buf[self.pos] as u32;
        let b1: u32 = self.buf[self.pos + 1] as u32;
        let b2: u32 = self.buf[self.pos + 2] as u32;
        let b3: u32 = self.buf[self.pos + 3] as u32;
        self.advance(4);
        Ok(b0 * 16_777_216 + b1 * 65_536 + b2 * 256 + b3)
    }

    /// Reads a variable byte integer. Where the bytes end inside it the
    /// result is `UnexpectedEof`.
    pub fn read_varbyte(&mut self) -> (r: Result<u32, Error>)
        requires
            old(self).wf(),
        ensures
            match parse_varbyte(old(self).rest()) {
                Ok((v, n)) => r == Ok::<u32, Error>(v) && moved(*old(self), *final(self), n),
                Err(e) => r == Err::<u32, Error>(e) && *final(self) == *old(self),
            },
    {
        let ghost s = self.rest();
        let avail: usize = self.remaining();
        let mut acc: u32 = 0;
        let mut weight: u32 = 1;
        let mut count: usize = 0;
        while count < 4 && count < avail
            invariant
                self.wf(),
                *self == *old(self),
                s == self.rest(),
                avail == s.len(),
                count <= 4,
                count <= avail,
                count == 0 ==> weight == 1 && acc == 0,
                count == 1 ==> weight == 128 && acc < 128,
                count == 2 ==> weight == 16_384 && acc < 16_384,
                count == 3 ==> weight == 2_097_152 && acc < 2_097_152,
                count == 4 ==> acc < 268_435_456,
                parse_varbyte(s) == parse_varbyte_from(s, acc as int, weight as int, count as int),
            decreases 4 - count,
        {
            let byte: u8 = self.buf[self.pos + count];
            assert(byte == s[count as int]);
            if byte < 128 {
                let v: u32 = acc + weight * (byte as u32);
                self.advance(count + 1);
                return Ok(v);
            }
            acc = acc + weight * ((byte - 128) as u32);
            if count < 3 {
                weight = weight * 128;
            }
            count = count + 1;
            assert(parse_varbyte(s) == parse_varbyte_from(
                s,
                acc as int,
                if count < 4 { weight as int } else { 268_435_456 },
                count as int,
            ));
        }
        if count >= 4 {
            Err(Error::MalformedVariableByteInteger)
        } else {
            Err(Error::UnexpectedEof)
        }
    }

    /// Reads a variable byte integer inside a packet body. Where the bytes
    /// end inside it the result is `BoundaryCrossed`.
    pub fn read_varint(&mut self) -> (r: Result<u32, Error>)
        requires
            old(self).wf(),
        ensures
            match parse_varint(old(self).rest()) {
                Ok((v, n)) => r == Ok::<u32, Error>(v) && moved(*old(self), *final(self), n),
                Err(e) => r == Err::<u32, Error>(e) && *final(self) == *old(self),
            },
    {
        match self.read_varbyte() {
            Err(Error::UnexpectedEof) => Err(Error::BoundaryCrossed),
            other => other,
        }
    }

    /// Reads a binary value: a two-byte length and that many bytes.
    pub fn read_blob(&mut self) -> (r: Result<Vec<u8>, Error>)
        requires
            old(self).wf(),
        ensures
            match parse_blob(old(self).rest()) {
                Ok((v, n)) => r matches Ok(data) && data@ == v && moved(
                    *old(self),
                    *final(self),
                    n,
                ),
                Err(e) => r == Err::<Vec<u8>, Error>(e) && *final(self) == *old(self),
            },
    {
        proof {
            reveal(parse_blob);
        }
        if self.remaining() < 2 {
            return Err(Error::BoundaryCrossed);
        }
        let hi: usize = self.buf[self.pos] as usize;
        let lo: usize = self.buf[self.pos + 1] as usize;
        let len: usize = hi * 256 + lo;
        if self.remaining() - 2 < len {
            return Err(Error::BoundaryCrossed);
        }
        let part = slice_subrange(self.buf, self.pos + 2, self.pos + 2 + len);
        assert(part@ =~= self.rest().subrange(2, 2 + len));
        self.advance(2 + len);
        Ok(slice_to_vec(part))
    }

    /// Reads a string: a two-byte length and that many bytes of UTF-8.
    pub fn read_text(&mut self) -> (r: Result<String, Error>)
        requires
            old(self).wf(),
        ensures
            match parse_text(old(self).rest()) {
                Ok((v, n)) => r matches Ok(text) && text@ == v && moved(
                    *old(self),
                    *final(self),
                    n,
                ),
                Err(e) => r == Err::<String, Error>(e) && *final(self) == *old(self),
            },
    {
        proof {
            reveal(parse_blob);
            reveal(parse_text);
        }
        let start: usize = self.pos;
        let bytes = match self.read_blob() {
            Ok(bytes) => bytes,
            Err(e) => { return Err(e); },
        };
        match string_from_utf8(bytes) {
            Ok(text) => Ok(text),
            Err(_) => {
                self.pos = start;
                Err(Error::TopicNotUtf8)
            },
        }
    }

    /// Reads two strings, one after the other.
    pub fn read_pair(&mut self) -> (r: Result<(String, String), Error>)
        requires
            old(self).wf(),
        ensures
            match parse_pair(old(self).rest()) {
                Ok((v, n)) => r matches Ok(pair) && pair.0@ == v.0 && pair.1@ == v.1 && moved(
                    *old(self),
                    *final(self),
                    n,
                ),
                Err(e) => r == Err::<(String, String), Error>(e) && *final(self) == *old(self),
            },
    {
        proof {
            reveal(parse_pair);
        }
        let start: usize = self.pos;
        let key = match self.read_text() {
            Ok(key) => key,
            Err(e) => { return Err(e); },
        };
        let ghost mid = *self;
        let value = match self.read_text() {
            Ok(value) => value,
            Err(e) => {
                self.pos = start;
                return Err(e);
            },
        };
        proof {
            let n1 = mid.pos - start;
            let n2 = self.pos - mid.pos;
            assert(self.rest() =~= old(self).rest().skip(n1 + n2));
        }
        Ok((key, value))
    }
}

} // verus!
