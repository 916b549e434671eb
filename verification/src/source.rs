//! The byte source: a cursor over the compressed input held in memory.

use vstd::prelude::*;
use vstd::arithmetic::power2::{pow2, lemma2_to64, lemma_pow2_adds};
use vstd::slice::slice_subrange;
use crate::error::{error, DecodeError, ErrorKind, Field};

verus! {

/// What a byte source stands for: all of its bytes, and how many of them
/// have been consumed.
pub struct Input {
    pub data: Seq<u8>,
    pub pos: nat,
}

/// The number that `bytes` spell when read as a little-endian integer.
pub open spec fn le_value(bytes: Seq<u8>) -> nat
    decreases bytes.len(),
{
    if bytes.len() == 0 {
        0
    } else {
        le_value(bytes.drop_last()) + bytes.last() as nat * pow2((8 * (bytes.len() - 1)) as nat)
    }
}

/// The first position at or after `from` that holds `delim`, or the length of
/// `data` where there is none.
pub open spec fn find_byte(data: Seq<u8>, from: nat, delim: u8) -> nat
    decreases data.len() - from,
{
    if from >= data.len() {
        data.len()
    } else if data[from as int] == delim {
        from
    } else {
        find_byte(data, from + 1, delim)
    }
}

/// The error of a read that met the end of the input.
pub open spec fn eof() -> DecodeError {
    error(ErrorKind::UnexpectedEof, Field::Stream)
}

impl Input {
    /// No more bytes are consumed than there are.
    pub open spec fn wf(self) -> bool {
        self.pos <= self.data.len()
    }

    /// The number of bytes not yet consumed.
    pub open spec fn remaining(self) -> nat {
        (self.data.len() - self.pos) as nat
    }

    /// The next `n` bytes.
    pub open spec fn peek(self, n: nat) -> Seq<u8> {
        self.data.subrange(self.pos as int, (self.pos + n) as int)
    }

    /// The source after `n` more bytes have been consumed.
    pub open spec fn advance(self, n: nat) -> Input {
        Input { data: self.data, pos: self.pos + n }
    }

    /// The source with every byte consumed.
    pub open spec fn exhausted(self) -> Input {
        Input { data: self.data, pos: self.data.len() }
    }

    /// Reads `n` bytes. A read that meets the end of the input fails and
    /// leaves the source exhausted.
    pub open spec fn read_exact(self, n: nat) -> (Result<Seq<u8>, DecodeError>, Input) {
        if self.pos + n <= self.data.len() {
            (Ok(self.peek(n)), self.advance(n))
        } else {
            (Err(eof()), self.exhausted())
        }
    }

    /// Reads one byte.
    pub open spec fn read_u8(self) -> (Result<u8, DecodeError>, Input) {
        match self.read_exact(1) {
            (Ok(bytes), next) => (Ok(bytes[0]), next),
            (Err(e), next) => (Err(e), next),
        }
    }

    /// Reads a little-endian integer of `n` bytes.
    pub open spec fn read_le(self, n: nat) -> (Result<nat, DecodeError>, Input) {
        match self.read_exact(n) {
            (Ok(bytes), next) => (Ok(le_value(bytes)), next),
            (Err(e), next) => (Err(e), next),
        }
    }

    /// Reads up to and including the first `delim`, or to the end of the
    /// input where there is none.
    pub open spec fn read_until(self, delim: u8) -> (Seq<u8>, Input) {
        let at = find_byte(self.data, self.pos, delim);
        if at < self.data.len() {
            (self.peek((at + 1 - self.pos) as nat), Input { data: self.data, pos: at + 1 })
        } else {
            (self.peek(self.remaining()), self.exhausted())
        }
    }
}

/// The little-endian value grows by the new byte, shifted past the old ones.
pub proof fn lemma_le_value_push(bytes: Seq<u8>, b: u8)
    ensures
        le_value(bytes.push(b)) == le_value(bytes) + b as nat * pow2((8 * bytes.len()) as nat),
{
    assert(bytes.push(b).drop_last() =~= bytes);
}

/// The value of bytes followed by more bytes: the later ones count from
/// beyond the earlier ones.
pub proof fn lemma_le_value_concat(a: Seq<u8>, b: Seq<u8>)
    ensures
        le_value(a + b) == le_value(a) + pow2((8 * a.len()) as nat) * le_value(b),
    decreases b.len(),
{
    if b.len() == 0 {
        assert(a + b =~= a);
        assert(pow2((8 * a.len()) as nat) * 0 == 0);
    } else {
        let front = b.drop_last();
        assert((a + b).drop_last() =~= a + front);
        lemma_le_value_concat(a, front);
        lemma_pow2_adds(8 * a.len(), 8 * front.len());
        let p = pow2(8 * a.len());
        let q = pow2(8 * front.len());
        let last = b.last() as nat;
        let v = le_value(front);
        assert(p * (v + last * q) == p * v + last * (p * q)) by (nonlinear_arith);
    }
}

/// A little-endian integer of `n` bytes is below `2^(8n)`.
pub proof fn lemma_le_value_bound(bytes: Seq<u8>)
    ensures
        le_value(bytes) < pow2((8 * bytes.len()) as nat),
    decreases bytes.len(),
{
    if bytes.len() == 0 {
        lemma2_to64();
    } else {
        let n = (bytes.len() - 1) as nat;
        lemma_le_value_bound(bytes.drop_last());
        lemma_pow2_adds(8 * n, 8);
        lemma2_to64();
        let p = pow2(8 * n);
        let b = bytes.last() as nat;
        assert(le_value(bytes.drop_last()) + b * p < p * 256) by (nonlinear_arith)
            requires
                le_value(bytes.drop_last()) < p,
                b < 256,
        ;
    }
}

/// The values of one, two and four bytes, written out.
pub proof fn lemma_le_value_small(bytes: Seq<u8>)
    ensures
        bytes.len() == 1 ==> le_value(bytes) == bytes[0],
        bytes.len() == 2 ==> le_value(bytes) == bytes[0] + 256 * bytes[1],
        bytes.len() == 4 ==> le_value(bytes) == bytes[0] + 256 * bytes[1] + 65536 * bytes[2]
            + 16777216 * bytes[3],
{
    lemma2_to64();
    if bytes.len() >= 1 {
        let b1 = bytes.take(1);
        assert(b1.drop_last().len() == 0);
        assert(le_value(b1.drop_last()) == 0);
        assert(le_value(b1) == bytes[0] as nat * pow2(0));
        if bytes.len() >= 2 {
            let b2 = bytes.take(2);
            assert(b2.drop_last() =~= b1);
            assert(le_value(b2) == le_value(b1) + bytes[1] as nat * pow2(8));
        }
        if bytes.len() == 4 {
            let b2 = bytes.take(2);
            let b3 = bytes.take(3);
            assert(b3.drop_last() =~= b2);
            assert(le_value(b3) == le_value(b2) + bytes[2] as nat * pow2(16));
            assert(bytes.drop_last() =~= b3);
            assert(le_value(bytes) == le_value(b3) + bytes[3] as nat * pow2(24));
        }
        if bytes.len() == 1 {
            assert(bytes =~= b1);
        }
        if bytes.len() == 2 {
            assert(bytes =~= bytes.take(2));
        }
    }
}

/// `byteorder::LittleEndian::read_u16`: the first two bytes of `buf` as a
/// little-endian integer. It panics on a shorter slice.
#[verifier::external_body]
fn le_u16(buf: &[u8]) -> (v: u16)
    requires
        buf@.len() >= 2,
    ensures
        v as nat == le_value(buf@.subrange(0, 2)),
{
    <byteorder::LittleEndian as byteorder::ByteOrder>::read_u16(buf)
}

/// `byteorder::LittleEndian::read_u32`: the first four bytes of `buf` as a
/// little-endian integer. It panics on a shorter slice.
#[verifier::external_body]
fn le_u32(buf: &[u8]) -> (v: u32)
    requires
        buf@.len() >= 4,
    ensures
        v as nat == le_value(buf@.subrange(0, 4)),
{
    <byteorder::LittleEndian as byteorder::ByteOrder>::read_u32(buf)
}

/// A cursor over a byte slice.
pub struct ByteSource<'a> {
    data: &'a [u8],
    pos: usize,
}

impl<'a> ByteSource<'a> {
    pub closed spec fn view(&self) -> Input {
        Input { data: self.data@, pos: self.pos as nat }
    }

    /// The cursor lies within the slice.
    pub open spec fn wf(&self) -> bool {
        self@.wf()
    }

    /// A source at the start of `data`.
    pub fn new(data: &'a [u8]) -> (s: Self)
        ensures
            s.wf(),
            s@ == (Input { data: data@, pos: 0 }),
    {
        ByteSource { data, pos: 0 }
    }

    /// Whether every byte has been consumed.
    pub fn is_empty(&self) -> (r: bool)
        requires
            self.wf(),
        ensures
            r == (self@.remaining() == 0),
    {
        self.pos >= self.data.len()
    }

    /// The number of bytes not yet consumed.
    pub fn remaining(&self) -> (r: usize)
        requires
            self.wf(),
        ensures
            r == self@.remaining(),
    {
        self.data.len() - self.pos
    }

    /// The number of bytes consumed so far.
    pub fn position(&self) -> (p: usize)
        requires
            self.wf(),
        ensures
            p == self@.pos,
    {
        self.pos
    }

    /// The bytes consumed since the position `start`.
    pub fn consumed_since(&self, start: usize) -> (bytes: &[u8])
        requires
            self.wf(),
            start <= self@.pos,
        ensures
            bytes@ == self@.data.subrange(start as int, self@.pos as int),
    {
        slice_subrange(self.data, start, self.pos)
    }

    /// Reads one byte.
    pub fn read_u8(&mut self) -> (r: Result<u8, DecodeError>)
        requires
            old(self).wf(),
        ensures
            final(self).wf(),
            (r, final(self)@) == old(self)@.read_u8(),
    {
        if self.pos < self.data.len() {
            let b: u8 = self.data[self.pos];
            self.pos = self.pos + 1;
            Ok(b)
        } else {
            Err(DecodeError::new(ErrorKind::UnexpectedEof, Field::Stream))
        }
    }

    /// Reads a little-endian integer of two bytes.
    pub fn read_u16_le(&mut self) -> (r: Result<u16, DecodeError>)
        requires
            old(self).wf(),
        ensures
            final(self).wf(),
            final(self)@ == old(self)@.read_le(2).1,
            match old(self)@.read_le(2).0 {
                Ok(v) => r == Ok::<u16, DecodeError>(v as u16) && v <= u16::MAX,
                Err(e) => r == Err::<u16, DecodeError>(e),
            },
    {
        if self.data.len() - self.pos >= 2 {
            let bytes = slice_subrange(self.data, self.pos, self.pos + 2);
            let v: u16 = le_u16(bytes);
            assert(bytes@.subrange(0, 2) =~= self@.peek(2));
            self.pos = self.pos + 2;
            Ok(v)
        } else {
            self.pos = self.data.len();
            Err(DecodeError::new(ErrorKind::UnexpectedEof, Field::Stream))
        }
    }

    /// Reads a little-endian integer of four bytes.
    pub fn read_u32_le(&mut self) -> (r: Result<u32, DecodeError>)
        requires
            old(self).wf(),
        ensures
            final(self).wf(),
            final(self)@ == old(self)@.read_le(4).1,
            match old(self)@.read_le(4).0 {
                Ok(v) => r == Ok::<u32, DecodeError>(v as u32) && v <= u32::MAX,
                Err(e) => r == Err::<u32, DecodeError>(e),
            },
    {
        if self.data.len() - self.pos >= 4 {
            let bytes = slice_subrange(self.data, self.pos, self.pos + 4);
            let v: u32 = le_u32(bytes);
            assert(bytes@.subrange(0, 4) =~= self@.peek(4));
            self.pos = self.pos + 4;
            Ok(v)
        } else {
            self.pos = self.data.len();
            Err(DecodeError::new(ErrorKind::UnexpectedEof, Field::Stream))
        }
    }

    /// Reads exactly `n` bytes.
    pub fn read_exact(&mut self, n: usize) -> (r: Result<Vec<u8>, DecodeError>)
        requires
            old(self).wf(),
        ensures
            final(self).wf(),
            final(self)@ == old(self)@.read_exact(n as nat).1,
            match old(self)@.read_exact(n as nat).0 {
                Ok(bytes) => r is Ok && r->Ok_0@ == bytes,
                Err(e) => r == Err::<Vec<u8>, DecodeError>(e),
            },
    {
        if self.data.len() - self.pos >= n {
            let bytes = slice_subrange(self.data, self.pos, self.pos + n);
            let mut out: Vec<u8> = Vec::new();
            out.extend_from_slice(bytes);
            assert(out@ =~= self@.peek(n as nat));
            self.pos = self.pos + n;
            Ok(out)
        } else {
            self.pos = self.data.len();
            Err(DecodeError::new(ErrorKind::UnexpectedEof, Field::Stream))
        }
    }

    /// Reads up to and including the first `delim`, or to the end of the
    /// input where there is none.
    pub fn read_until(&mut self, delim: u8) -> (r: Vec<u8>)
        requires
            old(self).wf(),
        ensures
            final(self).wf(),
            (r@, final(self)@) == old(self)@.read_until(delim),
    {
        let start: usize = self.pos;
        let mut at: usize = self.pos;
        while at < self.data.len() && self.data[at] != delim
            invariant
                start <= at <= self.data.len(),
                self.pos == start,
                find_byte(self.data@, start as nat, delim) == find_byte(self.data@, at as nat, delim),
            decreases self.data.len() - at,
        {
            at = at + 1;
        }
        let end: usize = if at < self.data.len() { at + 1 } else { at };
        let bytes = slice_subrange(self.data, start, end);
        let mut out: Vec<u8> = Vec::new();
        out.extend_from_slice(bytes);
        assert(out@ =~= self.data@.subrange(start as int, end as int));
        self.pos = end;
        out
    }
}

} // verus!
