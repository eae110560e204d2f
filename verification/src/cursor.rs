//! Byte cursors: reading packets from a slice and writing them into a buffer.

use vstd::prelude::*;
use vstd::utf8::*;
use vstd::string::StringSliceAdditionalSpecFns;

use crate::error::{end_error, CursorError, Error};

verus! {

/// The little-endian `u32` made of four bytes.
pub open spec fn le_u32(b0: u8, b1: u8, b2: u8, b3: u8) -> u32 {
    (b0 as u32) | ((b1 as u32) << 8u32) | ((b2 as u32) << 16u32) | ((b3 as u32) << 24u32)
}

/// The little-endian `u32` at the start of `s`.
pub open spec fn seq_le_u32(s: Seq<u8>) -> u32 {
    le_u32(s[0], s[1], s[2], s[3])
}

/// The four little-endian bytes of `v`.
pub open spec fn u32_le_bytes(v: u32) -> Seq<u8> {
    seq![
        (v & 0xffu32) as u8,
        ((v >> 8u32) & 0xffu32) as u8,
        ((v >> 16u32) & 0xffu32) as u8,
        ((v >> 24u32) & 0xffu32) as u8,
    ]
}

/// The big-endian `u16` at the start of `s`.
pub open spec fn seq_be_u16(s: Seq<u8>) -> u16 {
    (((s[0] as u16) << 8u16) | (s[1] as u16)) as u16
}

/// The two big-endian bytes of `v`.
pub open spec fn u16_be_bytes(v: u16) -> Seq<u8> {
    seq![((v >> 8u16) & 0xffu16) as u8, (v & 0xffu16) as u8]
}

/// Reading back the little-endian bytes of a `u32` gives the number.
pub proof fn lemma_u32_le_roundtrip(v: u32)
    ensures
        seq_le_u32(u32_le_bytes(v)) == v,
        u32_le_bytes(v).len() == 4,
{
    let b0 = (v & 0xffu32) as u8;
    let b1 = ((v >> 8u32) & 0xffu32) as u8;
    let b2 = ((v >> 16u32) & 0xffu32) as u8;
    let b3 = ((v >> 24u32) & 0xffu32) as u8;
    assert(le_u32(b0, b1, b2, b3) == v) by (bit_vector)
        requires
            b0 == (v & 0xffu32) as u8,
            b1 == ((v >> 8u32) & 0xffu32) as u8,
            b2 == ((v >> 16u32) & 0xffu32) as u8,
            b3 == ((v >> 24u32) & 0xffu32) as u8,
    ;
}

/// Writing back a `u32` read from four bytes gives the same bytes.
pub proof fn lemma_u32_le_canonical(s: Seq<u8>)
    requires
        s.len() == 4,
    ensures
        u32_le_bytes(seq_le_u32(s)) == s,
{
    let b0 = s[0];
    let b1 = s[1];
    let b2 = s[2];
    let b3 = s[3];
    let v = le_u32(b0, b1, b2, b3);
    assert(b0 == (v & 0xffu32) as u8 && b1 == ((v >> 8u32) & 0xffu32) as u8 && b2 == ((v
        >> 16u32) & 0xffu32) as u8 && b3 == ((v >> 24u32) & 0xffu32) as u8) by (bit_vector)
        requires
            v == le_u32(b0, b1, b2, b3),
    ;
    assert(u32_le_bytes(v) =~= s);
}

/// Reading back the big-endian bytes of a `u16` gives the number.
pub proof fn lemma_u16_be_roundtrip(v: u16)
    ensures
        seq_be_u16(u16_be_bytes(v)) == v,
        u16_be_bytes(v).len() == 2,
{
    let b0 = ((v >> 8u16) & 0xffu16) as u8;
    let b1 = (v & 0xffu16) as u8;
    assert((((b0 as u16) << 8u16) | (b1 as u16)) as u16 == v) by (bit_vector)
        requires
            b0 == ((v >> 8u16) & 0xffu16) as u8,
            b1 == (v & 0xffu16) as u8,
    ;
}

/// Writing back a `u16` read from two bytes gives the same bytes.
pub proof fn lemma_u16_be_canonical(s: Seq<u8>)
    requires
        s.len() == 2,
    ensures
        u16_be_bytes(seq_be_u16(s)) == s,
{
    let b0 = s[0];
    let b1 = s[1];
    let v = (((b0 as u16) << 8u16) | (b1 as u16)) as u16;
    assert(b0 == ((v >> 8u16) & 0xffu16) as u8 && b1 == (v & 0xffu16) as u8) by (bit_vector)
        requires
            v == (((b0 as u16) << 8u16) | (b1 as u16)) as u16,
    ;
    assert(u16_be_bytes(v) =~= s);
}

/// `s` begins with `prefix`.
pub open spec fn seq_starts_with(s: Seq<u8>, prefix: Seq<u8>) -> bool {
    prefix.len() <= s.len() && s.subrange(0, prefix.len() as int) == prefix
}

/// Whether `s` begins with `prefix`.
pub fn starts_with(s: &[u8], prefix: &[u8]) -> (r: bool)
    ensures
        r == seq_starts_with(s@, prefix@),
{
    if prefix.len() > s.len() {
        return false;
    }
    let mut i: usize = 0;
    while i < prefix.len()
        invariant
            prefix@.len() <= s@.len(),
            i <= prefix@.len(),
            forall|j: int| 0 <= j < i ==> s@[j] == prefix@[j],
        decreases prefix@.len() - i,
    {
        if s[i] != prefix[i] {
            assert(s@.subrange(0, prefix@.len() as int)[i as int] != prefix@[i as int]);
            return false;
        }
        i = i + 1;
    }
    assert(s@.subrange(0, prefix@.len() as int) =~= prefix@);
    true
}

/// The index of the first zero byte of `s`, if there is one.
pub open spec fn first_nul(s: Seq<u8>) -> Option<int> {
    if exists|i: int| 0 <= i < s.len() && s[i] == 0 {
        Some(choose|i: int| 0 <= i < s.len() && s[i] == 0 && forall|j: int| 0 <= j < i ==> s[j] != 0)
    } else {
        None
    }
}

/// The first zero byte of `s` stands at `i`.
pub open spec fn is_first_nul(s: Seq<u8>, i: int) -> bool {
    0 <= i < s.len() && s[i] == 0 && forall|j: int| 0 <= j < i ==> s[j] != 0
}

/// A read cursor over a byte slice.
#[derive(Clone, Copy)]
pub struct Cursor<'a> {
    buffer: &'a [u8],
    pos: usize,
}

impl<'a> View for Cursor<'a> {
    type V = Seq<u8>;

    /// The bytes that remain to be read.
    closed spec fn view(&self) -> Seq<u8> {
        self.buffer@.subrange(self.pos as int, self.buffer@.len() as int)
    }
}

impl<'a> Cursor<'a> {
    #[verifier::type_invariant]
    closed spec fn wf(&self) -> bool {
        self.pos <= self.buffer@.len()
    }

    /// A cursor at the start of `buffer`.
    pub fn new(buffer: &'a [u8]) -> (r: Self)
        ensures
            r@ == buffer@,
    {
        let r = Cursor { buffer, pos: 0 };
        assert(r@ =~= buffer@);
        r
    }

    /// The number of bytes that remain.
    pub fn remaining(&self) -> (r: usize)
        ensures
            r == self@.len(),
    {
        proof {
            use_type_invariant(self);
        }
        self.buffer.len() - self.pos
    }

    /// Whether any byte remains.
    pub fn has_remaining(&self) -> (r: bool)
        ensures
            r == (self@.len() > 0),
    {
        self.remaining() > 0
    }

    /// Takes all remaining bytes.
    pub fn end(&mut self) -> (r: &'a [u8])
        ensures
            r@ == old(self)@,
            final(self)@.len() == 0,
    {
        proof {
            use_type_invariant(&*self);
        }
        let r = &self.buffer[self.pos..self.buffer.len()];
        self.pos = self.buffer.len();
        assert(self@ =~= Seq::<u8>::empty());
        r
    }

    /// Takes the next `n` bytes.
    pub fn get_bytes(&mut self, n: usize) -> (r: Result<&'a [u8], Error>)
        ensures
            match r {
                Ok(b) => n <= old(self)@.len() && b@ == old(self)@.take(n as int) && final(self)@
                    == old(self)@.skip(n as int),
                Err(e) => n > old(self)@.len() && e == end_error() && final(self)@ == old(self)@,
            },
    {
        proof {
            use_type_invariant(&*self);
        }
        let len = self.buffer.len();
        if n <= self.remaining() {
            let start = self.pos;
            let b = &self.buffer[start..start + n];
            self.pos = start + n;
            assert(b@ =~= old(self)@.take(n as int));
            assert(self@ =~= old(self)@.skip(n as int));
            Ok(b)
        } else {
            Err(Error::Cursor(CursorError::UnexpectedEnd))
        }
    }

    /// Takes one byte.
    pub fn get_u8(&mut self) -> (r: Result<u8, Error>)
        ensures
            match r {
                Ok(v) => 1 <= old(self)@.len() && v == old(self)@[0] && final(self)@ == old(
                    self,
                )@.skip(1),
                Err(e) => old(self)@.len() < 1 && e == end_error() && final(self)@ == old(self)@,
            },
    {
        let b = self.get_bytes(1)?;
        Ok(b[0])
    }

    /// Takes a big-endian `u16`.
    pub fn get_u16_be(&mut self) -> (r: Result<u16, Error>)
        ensures
            match r {
                Ok(v) => 2 <= old(self)@.len() && v == seq_be_u16(old(self)@) && final(self)@
                    == old(self)@.skip(2),
                Err(e) => old(self)@.len() < 2 && e == end_error() && final(self)@ == old(self)@,
            },
    {
        let b = self.get_bytes(2)?;
        let v = ((b[0] as u16) << 8u16) | (b[1] as u16);
        Ok(v)
    }

    /// Takes a little-endian `u32`.
    pub fn get_u32_le(&mut self) -> (r: Result<u32, Error>)
        ensures
            match r {
                Ok(v) => 4 <= old(self)@.len() && v == seq_le_u32(old(self)@) && final(self)@
                    == old(self)@.skip(4),
                Err(e) => old(self)@.len() < 4 && e == end_error() && final(self)@ == old(self)@,
            },
    {
        let b = self.get_bytes(4)?;
        let v = (b[0] as u32) | ((b[1] as u32) << 8u32) | ((b[2] as u32) << 16u32) | ((
        b[3] as u32) << 24u32);
        Ok(v)
    }

    /// Checks that the remaining bytes begin with `s` and takes them.
    pub fn expect(&mut self, s: &[u8]) -> (r: Result<(), Error>)
        ensures
            match r {
                Ok(_) => seq_starts_with(old(self)@, s@) && final(self)@ == old(self)@.skip(
                    s@.len() as int,
                ),
                Err(e) => !seq_starts_with(old(self)@, s@) && e == Error::Cursor(
                    CursorError::Expect,
                ) && final(self)@ == old(self)@,
            },
    {
        let save = *self;
        let rest = self.end();
        *self = save;
        if starts_with(rest, s) {
            let _ = self.get_bytes(s.len());
            Ok(())
        } else {
            Err(Error::Cursor(CursorError::Expect))
        }
    }

    /// Checks that no byte remains.
    pub fn expect_empty(&self) -> (r: Result<(), Error>)
        ensures
            match r {
                Ok(_) => self@.len() == 0,
                Err(e) => self@.len() > 0 && e == Error::Cursor(CursorError::ExpectEmpty),
            },
    {
        if self.has_remaining() {
            Err(Error::Cursor(CursorError::ExpectEmpty))
        } else {
            Ok(())
        }
    }

    /// Takes the next `n` bytes as UTF-8 text.
    pub fn get_str(&mut self, n: usize) -> (r: Result<&'a str, Error>)
        ensures
            match r {
                Ok(t) => n <= old(self)@.len() && valid_utf8(old(self)@.take(n as int))
                    && t.spec_bytes() == old(self)@.take(n as int) && final(self)@ == old(
                    self,
                )@.skip(n as int),
                Err(e) => final(self)@ == old(self)@ && if n > old(self)@.len() {
                    e == end_error()
                } else {
                    !valid_utf8(old(self)@.take(n as int)) && e == Error::Cursor(
                        CursorError::InvalidString,
                    )
                },
            },
    {
        let save = *self;
        let b = self.get_bytes(n)?;
        match crate::text::str_from_utf8(b) {
            Some(t) => Ok(t),
            None => {
                *self = save;
                Err(Error::Cursor(CursorError::InvalidString))
            },
        }
    }

    /// Takes the bytes up to the next zero byte and the zero byte itself.
    pub fn get_cstr(&mut self) -> (r: Result<&'a [u8], Error>)
        ensures
            match r {
                Ok(b) => is_first_nul(old(self)@, b@.len() as int) && b@ == old(self)@.take(
                    b@.len() as int,
                ) && final(self)@ == old(self)@.skip(b@.len() + 1int),
                Err(e) => first_nul(old(self)@) is None && e == end_error() && final(self)@
                    == old(self)@,
            },
    {
        let save = *self;
        let rest = self.end();
        *self = save;
        let mut i: usize = 0;
        while i < rest.len()
            invariant
                i <= rest@.len(),
                rest@ == old(self)@,
                self@ == old(self)@,
                forall|j: int| 0 <= j < i ==> rest@[j] != 0,
            decreases rest@.len() - i,
        {
            if rest[i] == 0 {
                let b = self.get_bytes(i);
                let _ = self.get_bytes(1);
                assert(old(self)@.skip(i as int).skip(1) =~= old(self)@.skip(i + 1));
                assert(old(self)@.skip(i as int)[0] == 0);
                return b;
            }
            i = i + 1;
        }
        assert(!exists|j: int| 0 <= j < rest@.len() && rest@[j] == 0);
        Err(Error::Cursor(CursorError::UnexpectedEnd))
    }

    /// Takes the bytes up to the next zero byte, and the zero byte, as UTF-8 text.
    pub fn get_cstr_as_str(&mut self) -> (r: Result<&'a str, Error>)
        ensures
            match r {
                Ok(t) => is_first_nul(old(self)@, t.spec_bytes().len() as int) && t.spec_bytes()
                    == old(self)@.take(t.spec_bytes().len() as int) && final(self)@ == old(
                    self,
                )@.skip(t.spec_bytes().len() + 1int),
                Err(e) => final(self)@ == old(self)@ && match first_nul(old(self)@) {
                    None => e == end_error(),
                    Some(i) => !valid_utf8(old(self)@.take(i)) && e == Error::Cursor(
                        CursorError::InvalidString,
                    ),
                },
            },
    {
        let save = *self;
        let b = self.get_cstr()?;
        proof {
            lemma_first_nul(old(self)@, b@.len() as int);
        }
        match crate::text::str_from_utf8(b) {
            Some(t) => Ok(t),
            None => {
                *self = save;
                Err(Error::Cursor(CursorError::InvalidString))
            },
        }
    }
}

/// The first zero byte is the one `first_nul` names.
pub proof fn lemma_first_nul(s: Seq<u8>, i: int)
    requires
        is_first_nul(s, i),
    ensures
        first_nul(s) == Some(i),
{
    let k = choose|k: int| 0 <= k < s.len() && s[k] == 0 && forall|j: int| 0 <= j < k ==> s[j] != 0;
    assert(0 <= k < s.len() && s[k] == 0 && forall|j: int| 0 <= j < k ==> s[j] != 0);
    if k < i {
        assert(s[k] != 0);
    }
    if i < k {
        assert(s[i] != 0);
    }
}

/// `data` written into `old` at `pos`.
pub open spec fn spliced(old: Seq<u8>, pos: int, data: Seq<u8>) -> Seq<u8> {
    old.subrange(0, pos) + data + old.subrange(pos + data.len(), old.len() as int)
}

/// Writes `data` into `buf` at `pos`; returns the position after it.
pub fn put_bytes(buf: &mut [u8], pos: usize, data: &[u8]) -> (r: Result<usize, Error>)
    requires
        pos <= old(buf)@.len(),
    ensures
        final(buf)@.len() == old(buf)@.len(),
        match r {
            Ok(n) => n == pos + data@.len() && n <= old(buf)@.len() && final(buf)@ == spliced(
                old(buf)@,
                pos as int,
                data@,
            ) && final(buf)@.take(n as int) == old(buf)@.take(pos as int) + data@,
            Err(e) => pos + data@.len() > old(buf)@.len() && e == end_error() && final(buf)@
                == old(buf)@,
        },
{
    if data.len() > buf.len() - pos {
        return Err(Error::Cursor(CursorError::UnexpectedEnd));
    }
    let len = buf.len();
    let mut i: usize = 0;
    while i < data.len()
        invariant
            len == buf@.len(),
            pos + data@.len() <= buf@.len(),
            buf@.len() == old(buf)@.len(),
            i <= data@.len(),
            buf@ =~= old(buf)@.subrange(0, pos as int) + data@.subrange(0, i as int) + old(
                buf,
            )@.subrange(pos + i, old(buf)@.len() as int),
        decreases data@.len() - i,
    {
        buf[pos + i] = data[i];
        i = i + 1;
    }
    assert(data@.subrange(0, data@.len() as int) =~= data@);
    assert(buf@.take((pos + data@.len()) as int) =~= old(buf)@.take(pos as int) + data@);
    Ok(pos + data.len())
}

/// Writes one byte into `buf` at `pos`.
pub fn put_u8(buf: &mut [u8], pos: usize, v: u8) -> (r: Result<usize, Error>)
    requires
        pos <= old(buf)@.len(),
    ensures
        final(buf)@.len() == old(buf)@.len(),
        match r {
            Ok(n) => n == pos + 1 && n <= old(buf)@.len() && final(buf)@ == spliced(
                old(buf)@,
                pos as int,
                seq![v],
            ) && final(buf)@.take(n as int) == old(buf)@.take(pos as int) + seq![v],
            Err(e) => pos + 1 > old(buf)@.len() && e == end_error() && final(buf)@ == old(buf)@,
        },
{
    let a: [u8; 1] = [v];
    assert(a@ =~= seq![v]);
    put_bytes(buf, pos, &a)
}

/// Writes a little-endian `u32` into `buf` at `pos`.
pub fn put_u32_le(buf: &mut [u8], pos: usize, v: u32) -> (r: Result<usize, Error>)
    requires
        pos <= old(buf)@.len(),
    ensures
        final(buf)@.len() == old(buf)@.len(),
        match r {
            Ok(n) => n == pos + 4 && n <= old(buf)@.len() && final(buf)@ == spliced(
                old(buf)@,
                pos as int,
                u32_le_bytes(v),
            ) && final(buf)@.take(n as int) == old(buf)@.take(pos as int) + u32_le_bytes(v),
            Err(e) => pos + 4 > old(buf)@.len() && e == end_error() && final(buf)@ == old(buf)@,
        },
{
    let a: [u8; 4] = [
        (v & 0xff) as u8,
        ((v >> 8u32) & 0xff) as u8,
        ((v >> 16u32) & 0xff) as u8,
        ((v >> 24u32) & 0xff) as u8,
    ];
    assert(a@ =~= u32_le_bytes(v));
    put_bytes(buf, pos, &a)
}

/// Writes a big-endian `u16` into `buf` at `pos`.
pub fn put_u16_be(buf: &mut [u8], pos: usize, v: u16) -> (r: Result<usize, Error>)
    requires
        pos <= old(buf)@.len(),
    ensures
        final(buf)@.len() == old(buf)@.len(),
        match r {
            Ok(n) => n == pos + 2 && n <= old(buf)@.len() && final(buf)@ == spliced(
                old(buf)@,
                pos as int,
                u16_be_bytes(v),
            ) && final(buf)@.take(n as int) == old(buf)@.take(pos as int) + u16_be_bytes(v),
            Err(e) => pos + 2 > old(buf)@.len() && e == end_error() && final(buf)@ == old(buf)@,
        },
{
    let a: [u8; 2] = [((v >> 8u16) & 0xff) as u8, (v & 0xff) as u8];
    assert(a@ =~= u16_be_bytes(v));
    put_bytes(buf, pos, &a)
}

/// The first `n` bytes of `buf`, once written.
pub fn written<'a>(buf: &'a [u8], n: usize) -> (r: &'a [u8])
    requires
        n <= buf@.len(),
    ensures
        r@ == buf@.take(n as int),
{
    let r = &buf[0..n];
    assert(r@ =~= buf@.take(n as int));
    r
}

} // verus!
