//! Bit sequences, and the reader that takes bits from the byte source,
//! least significant bit of each byte first.

use vstd::prelude::*;
use vstd::arithmetic::power2::{pow2, lemma2_to64, lemma_pow2_adds, lemma_pow2_pos, lemma_pow2_strictly_increases};
use vstd::arithmetic::div_mod::{
    lemma_small_mod, lemma_fundamental_div_mod, lemma_fundamental_div_mod_converse, lemma_mod_bound,
    lemma_multiply_divide_lt,
};
use vstd::bits::lemma_u32_shl_is_mul;
use crate::error::{DecodeError};
use crate::source::{eof, le_value, lemma_le_value_concat, lemma_le_value_push, ByteSource, Input};

verus! {

/// Up to 16 bits, with their number.
#[derive(Clone, Copy, Debug, PartialEq, Eq, Hash, Structural)]
pub struct BitSequence {
    pub bits: u16,
    pub len: u8,
}

impl BitSequence {
    /// At most 16 bits, and no bit set beyond the length.
    pub open spec fn wf(self) -> bool {
        self.len <= 16 && (self.bits as nat) < pow2(self.len as nat)
    }

    /// The bits of `self` shifted left by the length of `other`, as far as
    /// they stay within 16 bits.
    pub open spec fn shifted(self, other: BitSequence) -> nat {
        (self.bits as nat * pow2(other.len as nat)) % 0x1_0000
    }

    /// `self` followed by `other`: `self` shifted left by the length of
    /// `other`, plus `other`.
    pub open spec fn joined(self, other: BitSequence) -> BitSequence {
        BitSequence {
            bits: (self.shifted(other) + other.bits as nat) as u16,
            len: (self.len + other.len) as u8,
        }
    }

    pub fn new(bits: u16, len: u8) -> (s: Self)
        ensures
            s == (BitSequence { bits, len }),
    {
        Self { bits, len }
    }

    pub fn bits(&self) -> (bits: u16)
        ensures
            bits == self.bits,
    {
        self.bits
    }

    pub fn len(&self) -> (len: u8)
        ensures
            len == self.len,
    {
        self.len
    }

    /// Appends `other` on the low side: the bits of `self` are shifted left
    /// by the length of `other`, those that leave the 16 bits are lost, and
    /// the bits of `other` are added. The lengths together may not exceed
    /// 16, and the sum has to fit into 16 bits.
    pub fn concat(self, other: Self) -> (s: Self)
        requires
            self.len + other.len <= 16,
            self.shifted(other) + other.bits <= 0xffff,
        ensures
            s == self.joined(other),
            s.bits as nat == self.shifted(other) + other.bits as nat,
            s.len == self.len + other.len,
            self.wf() && other.wf() ==> s.wf() && s.bits as nat == self.bits as nat * pow2(
                other.len as nat,
            ) + other.bits as nat,
    {
        let shift: u32 = pow2_u32(other.len);
        proof {
            if self.wf() && other.wf() {
                lemma_joined_fits(self, other);
            }
            lemma_pow2_upto_16(other.len as nat);
            assert((self.bits as u32) * shift <= 0xffff * 0x1_0000) by (nonlinear_arith)
                requires
                    self.bits <= 0xffff,
                    shift <= 0x1_0000,
            ;
        }
        let shifted: u32 = ((self.bits as u32) * shift) % 0x1_0000;
        let bits: u32 = shifted + other.bits as u32;
        Self { bits: bits as u16, len: self.len + other.len }
    }
}

/// Two well-formed sequences of at most 16 bits together join into a
/// well-formed one.
pub proof fn lemma_joined_fits(a: BitSequence, b: BitSequence)
    requires
        a.wf(),
        b.wf(),
        a.len + b.len <= 16,
    ensures
        (a.bits as nat * pow2(b.len as nat) + b.bits as nat) < pow2((a.len + b.len) as nat),
        pow2((a.len + b.len) as nat) <= 65536,
        a.shifted(b) == a.bits as nat * pow2(b.len as nat),
        a.shifted(b) + b.bits <= 0xffff,
        a.joined(b).wf(),
        a.joined(b).bits as nat == a.bits as nat * pow2(b.len as nat) + b.bits as nat,
{
    lemma2_to64();
    lemma_pow2_adds(a.len as nat, b.len as nat);
    if a.len + b.len < 16 {
        lemma_pow2_strictly_increases((a.len + b.len) as nat, 16);
    }
    let x = a.bits as nat;
    let y = b.bits as nat;
    let p = pow2(a.len as nat);
    let q = pow2(b.len as nat);
    assert(x * q + y < p * q) by (nonlinear_arith)
        requires
            x < p,
            y < q,
    ;
    lemma_small_mod(x * q, 0x1_0000);
}

/// `2^n` as a machine integer.
pub(crate) fn pow2_u32(n: u8) -> (p: u32)
    requires
        n <= 24,
    ensures
        p as nat == pow2(n as nat),
        0 < p <= 0x100_0000,
{
    proof {
        lemma2_to64();
        if n < 24 {
            lemma_pow2_strictly_increases(n as nat, 24);
        }
        lemma_pow2_pos(n as nat);
        lemma_u32_shl_is_mul(1u32, n as u32);
    }
    1u32 << (n as u32)
}

/// What a bit reader stands for: the byte source, and the bits of the last
/// byte taken from it that no read has used yet.
pub struct BitInput {
    pub src: Input,
    /// The buffered bits, as a number: the next bit to read is the lowest.
    pub bits: nat,
    /// How many bits are buffered.
    pub nbits: nat,
}

impl BitInput {
    /// Fewer than eight bits are buffered, and no bit is set beyond them.
    pub open spec fn wf(self) -> bool {
        &&& self.src.wf()
        &&& self.nbits < 8
        &&& self.bits < pow2(self.nbits)
    }

    /// The number of bits that can still be read.
    pub open spec fn remaining_bits(self) -> nat {
        self.nbits + 8 * self.src.remaining()
    }

    /// How many bytes a read of `n` bits takes from the source.
    pub open spec fn bytes_needed(self, n: nat) -> nat {
        if n <= self.nbits {
            0
        } else {
            ((n - self.nbits + 7) / 8) as nat
        }
    }

    /// Reads `n` bits. The buffered bits come first, then each new byte from
    /// its least significant bit on; the first bit read is the lowest of the
    /// result. A read that meets the end of the input fails, keeps the
    /// buffered bits and leaves the source exhausted.
    pub open spec fn read_bits(self, n: nat) -> (Result<BitSequence, DecodeError>, BitInput) {
        let k = self.bytes_needed(n);
        if self.src.pos + k > self.src.data.len() {
            (Err(eof()), BitInput { src: self.src.exhausted(), bits: self.bits, nbits: self.nbits })
        } else {
            let window = self.bits + pow2(self.nbits) * le_value(self.src.peek(k));
            (
                Ok(BitSequence { bits: (window % pow2(n)) as u16, len: n as u8 }),
                BitInput {
                    src: self.src.advance(k),
                    bits: window / pow2(n),
                    nbits: (self.nbits + 8 * k - n) as nat,
                },
            )
        }
    }

    /// Drops the buffered bits: the next read starts at a byte boundary.
    pub open spec fn realign(self) -> BitInput {
        BitInput { src: self.src, bits: 0, nbits: 0 }
    }

    /// A reader at a byte boundary of `src`.
    pub open spec fn aligned(src: Input) -> BitInput {
        BitInput { src, bits: 0, nbits: 0 }
    }
}

/// A reader at a byte boundary of a well-formed source is well formed.
pub proof fn lemma_aligned(src: Input)
    requires
        src.wf(),
    ensures
        BitInput::aligned(src).wf(),
        BitInput::aligned(src).remaining_bits() == 8 * src.remaining(),
{
    lemma2_to64();
}

/// A read keeps the reader well formed. One that succeeds gives a
/// well-formed sequence of `n` bits and leaves `n` bits fewer to read; one
/// that fails leaves no byte in the source.
pub proof fn lemma_read_bits(st: BitInput, n: nat)
    requires
        st.wf(),
        n <= 16,
    ensures
        st.read_bits(n).1.wf(),
        st.read_bits(n).1.src.data == st.src.data,
        st.read_bits(n).1.src.pos >= st.src.pos,
        st.read_bits(n).0 is Ok <==> n <= st.remaining_bits(),
        st.read_bits(n).0 is Ok ==> {
            &&& st.read_bits(n).0->Ok_0.wf()
            &&& st.read_bits(n).0->Ok_0.len == n
            &&& st.read_bits(n).1.remaining_bits() + n == st.remaining_bits()
        },
        st.read_bits(n).0 is Err ==> {
            &&& st.read_bits(n).0->Err_0 == eof()
            &&& st.read_bits(n).1.remaining_bits() <= st.remaining_bits()
        },
{
    let k = st.bytes_needed(n);
    lemma2_to64();
    if st.src.pos + k <= st.src.data.len() {
        let window = st.bits + pow2(st.nbits) * le_value(st.src.peek(k));
        lemma_window_bound(st, k);
        let left = (st.nbits + 8 * k - n) as nat;
        lemma_pow2_adds(n, left);
        lemma_pow2_pos(n);
        lemma_multiply_divide_lt(window as int, pow2(n) as int, pow2(left) as int);
        lemma_mod_bound(window as int, pow2(n) as int);
        if n < 16 {
            lemma_pow2_strictly_increases(n, 16);
        }
    }
}

/// The powers of two up to the sixteenth.
proof fn lemma_pow2_upto_16(n: nat)
    requires
        n <= 16,
    ensures
        0 < pow2(n) <= 65536,
{
    lemma2_to64();
    if n < 16 {
        lemma_pow2_strictly_increases(n, 16);
    }
}

/// Two reads take as many bytes from the source as one read of all their
/// bits.
proof fn lemma_bytes_needed_split(nbits: nat, n: nat, m: nat, k1: nat, k2: nat, k: nat)
    requires
        nbits < 8,
        k1 == (if n <= nbits {
            0
        } else {
            (n - nbits + 7) / 8
        }),
        k2 == (if m <= nbits + 8 * k1 - n {
            0
        } else {
            (m - (nbits + 8 * k1 - n) + 7) / 8
        }),
        k == (if n + m <= nbits {
            0
        } else {
            (n + m - nbits + 7) / 8
        }),
    ensures
        k == k1 + k2,
{
}

/// The low bits and the rest of a number that is put together from two
/// parts, of which the lower has been split already.
proof fn lemma_window_split(w1: nat, pn: nat, pm: nat, tail: nat)
    requires
        pn > 0,
        pm > 0,
    ensures
        (w1 + pn * tail) % (pn * pm) == w1 % pn + pn * ((w1 / pn + tail) % pm),
        (w1 + pn * tail) / (pn * pm) == (w1 / pn + tail) / pm,
{
    let v1 = w1 % pn;
    let r1 = w1 / pn;
    let w2 = r1 + tail;
    let v2 = w2 % pm;
    let r2 = w2 / pm;
    lemma_fundamental_div_mod(w1 as int, pn as int);
    lemma_fundamental_div_mod(w2 as int, pm as int);
    lemma_mod_bound(w1 as int, pn as int);
    lemma_mod_bound(w2 as int, pm as int);
    assert(w1 + pn * tail == (pn * pm) * r2 + (v1 + pn * v2)) by (nonlinear_arith)
        requires
            w1 == pn * r1 + v1,
            w2 == r1 + tail,
            w2 == pm * r2 + v2,
    ;
    assert(0 <= v1 + pn * v2 < pn * pm) by (nonlinear_arith)
        requires
            0 <= v1 < pn,
            0 <= v2 < pm,
    ;
    assert(r2 * (pn * pm) == (pn * pm) * r2) by (nonlinear_arith);
    lemma_fundamental_div_mod_converse(
        (w1 + pn * tail) as int,
        (pn * pm) as int,
        r2 as int,
        (v1 + pn * v2) as int,
    );
}

/// Reading `n` bits and then `m` bits gives what reading `n + m` bits at
/// once gives: the bits read first are the low bits, the bits read next lie
/// above them, and the reader is left in the same state.
pub proof fn lemma_read_bits_split(st: BitInput, n: nat, m: nat)
    requires
        st.wf(),
        n + m <= 16,
        st.read_bits(n).0 is Ok,
        st.read_bits(n).1.read_bits(m).0 is Ok,
    ensures
        st.read_bits(n + m).0 is Ok,
        st.read_bits(n + m).0->Ok_0.len == n + m,
        st.read_bits(n + m).0->Ok_0.bits as nat == st.read_bits(n).0->Ok_0.bits as nat + pow2(n)
            * st.read_bits(n).1.read_bits(m).0->Ok_0.bits as nat,
        st.read_bits(n + m).1 == st.read_bits(n).1.read_bits(m).1,
{
    lemma_read_bits(st, n);
    let s1 = st.read_bits(n).1;
    lemma_read_bits(s1, m);
    lemma_read_bits(st, n + m);
    let k1 = st.bytes_needed(n);
    let k2 = s1.bytes_needed(m);
    let k = st.bytes_needed(n + m);
    lemma_bytes_needed_split(st.nbits, n, m, k1, k2, k);
    let p1 = st.src.peek(k1);
    let p2 = s1.src.peek(k2);
    assert(st.src.peek(k) =~= p1 + p2);
    lemma_le_value_concat(p1, p2);
    let pn = pow2(n);
    let pm = pow2(m);
    let a = pow2(st.nbits);
    let c = pow2(8 * k1);
    let d = pow2(s1.nbits);
    let l1 = le_value(p1);
    let l2 = le_value(p2);
    let w1 = st.bits + a * l1;
    let w = st.bits + a * le_value(st.src.peek(k));
    lemma_pow2_pos(n);
    lemma_pow2_pos(m);
    lemma_pow2_adds(n, m);
    lemma_pow2_adds(st.nbits, 8 * k1);
    lemma_pow2_adds(n, s1.nbits);
    assert(a * c == pn * d);
    assert(w == w1 + pn * (d * l2)) by (nonlinear_arith)
        requires
            w == st.bits + a * (l1 + c * l2),
            w1 == st.bits + a * l1,
            a * c == pn * d,
    ;
    lemma_window_split(w1, pn, pm, d * l2);
    lemma_pow2_upto_16(n);
    lemma_pow2_upto_16(m);
    lemma_pow2_upto_16(n + m);
    let w2 = s1.bits + d * l2;
    lemma_mod_bound(w1 as int, pn as int);
    lemma_mod_bound(w2 as int, pm as int);
    lemma_mod_bound(w as int, (pn * pm) as int);
    assert(s1.bits == w1 / pn);
    assert(st.read_bits(n).0->Ok_0.bits as nat == w1 % pn);
    assert(s1.read_bits(m).0->Ok_0.bits as nat == w2 % pm);
    assert(st.read_bits(n + m).0->Ok_0.bits as nat == w % (pn * pm));
}

/// The buffered bits with `k` more bytes above them stay below `2^(nbits + 8k)`.
pub proof fn lemma_window_bound(st: BitInput, k: nat)
    requires
        st.bits < pow2(st.nbits),
    ensures
        st.bits + pow2(st.nbits) * le_value(st.src.peek(k)) < pow2(st.nbits + 8 * st.src.peek(k).len()),
{
    let bytes = st.src.peek(k);
    crate::source::lemma_le_value_bound(bytes);
    lemma_pow2_adds(st.nbits, 8 * bytes.len());
    let p = pow2(st.nbits);
    let q = pow2(8 * bytes.len());
    let v = le_value(bytes);
    assert(st.bits + p * v < p * q) by (nonlinear_arith)
        requires
            st.bits < p,
            v < q,
    ;
}

/// A reader of bits over a byte source.
pub struct BitReader<'a> {
    stream: ByteSource<'a>,
    bit_sequence: BitSequence,
}

impl<'a> BitReader<'a> {
    /// The byte source underneath.
    pub closed spec fn source(&self) -> ByteSource<'a> {
        self.stream
    }

    /// The buffered bits.
    pub closed spec fn pending(&self) -> BitSequence {
        self.bit_sequence
    }

    pub open spec fn view(&self) -> BitInput {
        BitInput {
            src: self.source()@,
            bits: self.pending().bits as nat,
            nbits: self.pending().len as nat,
        }
    }

    /// The source and the buffered bits are well formed.
    pub open spec fn wf(&self) -> bool {
        self@.wf()
    }

    /// A reader with no bit buffered.
    pub fn new(stream: ByteSource<'a>) -> (r: Self)
        requires
            stream.wf(),
        ensures
            r.wf(),
            r.source() == stream,
            r@ == BitInput::aligned(stream@),
    {
        proof {
            lemma2_to64();
        }
        Self { stream, bit_sequence: BitSequence::new(0, 0) }
    }

    /// Reads `len` bits.
    pub fn read_bits(&mut self, len: u8) -> (r: Result<BitSequence, DecodeError>)
        requires
            old(self).wf(),
            len <= 16,
        ensures
            final(self).wf(),
            (r, final(self)@) == old(self)@.read_bits(len as nat),
    {
        let ghost start = self@;
        let ghost mut taken: nat = 0;
        let mut already_len: u8 = self.bit_sequence.len;
        let mut window: u32 = self.bit_sequence.bits as u32;
        proof {
            lemma2_to64();
            assert(start.src.peek(0) =~= Seq::<u8>::empty());
            assert(le_value(start.src.peek(0)) == 0);
            assert(pow2(start.nbits) * 0 == 0);
            lemma_pow2_strictly_increases(start.nbits, 8);
        }
        while already_len < len
            invariant
                len <= 16,
                start.wf(),
                start == old(self)@,
                self.stream.wf(),
                self.bit_sequence == old(self).bit_sequence,
                self.stream@.data == start.src.data,
                self.stream@.pos == start.src.pos + taken,
                already_len == start.nbits + 8 * taken,
                taken > 0 ==> already_len - 8 < len,
                window as nat == start.bits + pow2(start.nbits) * le_value(start.src.peek(taken)),
                (window as nat) < pow2(already_len as nat),
                already_len < 24,
            decreases len + 8 - already_len,
        {
            match self.stream.read_u8() {
                Err(e) => {
                    assert(taken < start.bytes_needed(len as nat));
                    return Err(e);
                },
                Ok(b) => {
                    let shift: u32 = pow2_u32(already_len);
                    proof {
                        lemma2_to64();
                        let bytes = start.src.peek(taken);
                        assert(start.src.peek(taken + 1) =~= bytes.push(b));
                        lemma_le_value_push(bytes, b);
                        lemma_pow2_adds(start.nbits, 8 * taken);
                        lemma_pow2_adds(already_len as nat, 8);
                        lemma_pow2_strictly_increases(already_len as nat, 16);
                        let p = pow2(start.nbits);
                        let q = pow2(8 * taken);
                        let v = le_value(bytes);
                        assert(p * (v + b as nat * q) == p * v + b as nat * (p * q))
                            by (nonlinear_arith);
                        assert(window + b as nat * shift < shift * 256) by (nonlinear_arith)
                            requires
                                window < shift,
                                b < 256,
                        ;
                        taken = taken + 1;
                    }
                    window = window + (b as u32) * shift;
                    already_len = already_len + 8;
                },
            }
        }
        assert(taken == start.bytes_needed(len as nat));
        let modulus: u32 = pow2_u32(len);
        proof {
            lemma_read_bits(start, len as nat);
        }
        let ans: u16 = (window % modulus) as u16;
        self.bit_sequence = BitSequence::new((window / modulus) as u16, already_len - len);
        Ok(BitSequence::new(ans, len))
    }

    /// Drops the buffered bits and lends the byte source, at its byte
    /// boundary. What the borrower leaves of the source is what the reader
    /// goes on with.
    pub fn borrow_reader_from_boundary(&mut self) -> (r: &mut ByteSource<'a>)
        ensures
            *r == old(self).source(),
            final(self).source() == *final(r),
            final(self).pending() == (BitSequence { bits: 0, len: 0 }),
    {
        self.bit_sequence = BitSequence::new(0, 0);
        &mut self.stream
    }
}

} // verus!
