//! The writer in front of the sink: it keeps the last 32 KiB of what it
//! wrote, a running CRC-32 and a byte count, and resolves back-references.

use std::collections::VecDeque;
use vstd::prelude::*;
use vstd::slice::slice_subrange;
use vstd::arithmetic::div_mod::lemma_add_mod_noop;
use crate::checksum::{crc32_iso_hdlc, Crc32, Crc32Digest};
use crate::error::{error, DecodeError, ErrorKind, Field};
use crate::sink::{ByteSink, Output};

verus! {

/// The number of bytes that the sliding window keeps.
pub const HISTORY_SIZE: usize = 32768;

/// What a tracking writer stands for: the sink, and the bytes written since
/// the writer was made or last cleared (those of the current member).
pub struct WriterState {
    pub sink: Output,
    pub member: Seq<u8>,
}

/// The last `HISTORY_SIZE` bytes of `member`, or all of it where it is shorter.
pub open spec fn window_of(member: Seq<u8>) -> Seq<u8> {
    if member.len() > HISTORY_SIZE {
        member.skip(member.len() - HISTORY_SIZE)
    } else {
        member
    }
}

/// The `len` bytes that a back-reference of distance `dist` stands for: the
/// last `dist` bytes of `window`, repeated in a cycle. A distance of zero
/// stands for nothing.
pub open spec fn back_reference(window: Seq<u8>, dist: nat, len: nat) -> Seq<u8> {
    if dist == 0 {
        Seq::empty()
    } else {
        Seq::new(len, |i: int| window[window.len() - dist + i % (dist as int)])
    }
}

impl WriterState {
    /// The sliding window.
    pub open spec fn window(self) -> Seq<u8> {
        window_of(self.member)
    }

    /// The checksum of the bytes of the member so far.
    pub open spec fn crc32(self) -> u32 {
        crc32_iso_hdlc(self.member)
    }

    /// The number of bytes of the member so far, modulo 2^32.
    pub open spec fn byte_count(self) -> u32 {
        (self.member.len() % 0x1_0000_0000) as u32
    }

    /// Offers `bytes` to the sink: the prefix that the sink takes is written.
    pub open spec fn write(self, bytes: Seq<u8>) -> WriterState {
        WriterState {
            sink: self.sink.write(bytes),
            member: self.member + bytes.take(self.sink.accepts(bytes.len()) as int),
        }
    }

    /// Writes `bytes`; fails, the accepted prefix written, where the sink
    /// does not take them all.
    pub open spec fn write_all(self, bytes: Seq<u8>) -> (Result<(), DecodeError>, WriterState) {
        if self.sink.accepts(bytes.len()) == bytes.len() {
            (Ok(()), self.write(bytes))
        } else {
            (Err(error(ErrorKind::WriteZero, Field::Output)), self.write(bytes))
        }
    }

    /// Writes the bytes of a back-reference; fails, nothing written, where
    /// the distance is more than the window holds.
    pub open spec fn write_previous(self, dist: nat, len: nat) -> (
        Result<(), DecodeError>,
        WriterState,
    ) {
        if dist > self.window().len() {
            (Err(error(ErrorKind::BadBackReference, Field::Symbol)), self)
        } else {
            self.write_all(back_reference(self.window(), dist, len))
        }
    }

    /// Starts a new member: the window, the checksum and the count start
    /// over; the sink keeps what it holds.
    pub open spec fn clear(self) -> WriterState {
        WriterState { sink: self.sink, member: Seq::empty() }
    }
}

/// In the stream that a back-reference extends, each of its bytes equals the
/// byte `dist` places before it, also where the copy overlaps itself.
pub proof fn lemma_back_reference_repeats(window: Seq<u8>, dist: nat, len: nat, i: int)
    requires
        1 <= dist <= window.len(),
        0 <= i < len,
    ensures
        back_reference(window, dist, len).len() == len,
        (window + back_reference(window, dist, len))[window.len() + i] == (window + back_reference(
            window,
            dist,
            len,
        ))[window.len() + i - dist],
{
    let d = dist as int;
    let copy = back_reference(window, dist, len);
    if i >= d {
        assert((i - d) % d == i % d) by (nonlinear_arith)
            requires
                d > 0,
                i >= d,
        ;
        assert(0 <= (i - d) % d < d) by (nonlinear_arith)
            requires
                d > 0,
                i >= d,
        ;
    } else {
        assert(i % d == i) by (nonlinear_arith)
            requires
                0 <= i < d,
        ;
    }
}

/// A back-reference of distance one stands for copies of the last byte.
pub proof fn lemma_back_reference_run(window: Seq<u8>, len: nat)
    requires
        window.len() >= 1,
    ensures
        back_reference(window, 1, len) == Seq::new(len, |i: int| window.last()),
{
    assert(back_reference(window, 1, len) =~= Seq::new(len, |i: int| window.last()));
}

/// Once 32768 bytes or more are written, the window holds exactly the last
/// 32768 of them: a back-reference of that distance is resolved, one of a
/// greater distance fails.
pub proof fn lemma_window_full(w: WriterState, len: nat)
    requires
        w.member.len() >= HISTORY_SIZE,
    ensures
        w.window() == w.member.skip(w.member.len() - HISTORY_SIZE),
        w.window().len() == HISTORY_SIZE,
        w.write_previous(HISTORY_SIZE as nat, len) == w.write_all(
            back_reference(w.window(), HISTORY_SIZE as nat, len),
        ),
        w.write_previous((HISTORY_SIZE + 1) as nat, len) == (
            Err::<(), DecodeError>(error(ErrorKind::BadBackReference, Field::Symbol)),
            w,
        ),
{
    if w.member.len() == HISTORY_SIZE {
        assert(w.member.skip(0) =~= w.member);
    }
}

/// A writer that tracks what passes through it to the sink.
pub struct TrackingWriter<'a> {
    inner: ByteSink,
    buffer: VecDeque<u8>,
    byte_counter: u32,
    digest: Crc32Digest<'a>,
    table: &'a Crc32,
}

impl<'a> TrackingWriter<'a> {
    pub closed spec fn view(&self) -> WriterState {
        WriterState { sink: self.inner@, member: self.digest@ }
    }

    /// The window and the counter agree with the bytes of the member.
    pub closed spec fn wf(&self) -> bool {
        &&& self.buffer@ == window_of(self.digest@)
        &&& self.byte_counter as int == self.digest@.len() % 0x1_0000_0000
    }

    /// A writer in front of `inner`, with nothing written yet.
    pub fn new(inner: ByteSink, table: &'a Crc32) -> (w: Self)
        ensures
            w.wf(),
            w@ == (WriterState { sink: inner@, member: Seq::empty() }),
    {
        Self {
            inner,
            buffer: VecDeque::new(),
            byte_counter: 0,
            digest: Crc32Digest::new(table),
            table,
        }
    }

    /// Offers `buf` to the sink and tracks the prefix that the sink took;
    /// returns its length.
    pub fn write(&mut self, buf: &[u8]) -> (n: usize)
        requires
            old(self).wf(),
        ensures
            final(self).wf(),
            n == old(self)@.sink.accepts(buf@.len()),
            final(self)@ == old(self)@.write(buf@),
    {
        broadcast use vstd::std_specs::vecdeque::axiom_spec_len;

        let ghost before = self.digest@;
        let n: usize = self.inner.write(buf);
        let taken = slice_subrange(buf, 0, n);
        assert(taken@ =~= buf@.take(n as int));
        self.digest.update(taken);
        let low: u64 = (n as u64) % 0x1_0000_0000;
        self.byte_counter = ((self.byte_counter as u64 + low) % 0x1_0000_0000) as u32;
        proof {
            lemma_add_mod_noop(before.len() as int, n as int, 0x1_0000_0000);
        }
        let ghost sink = self.inner@;
        let ghost counter = self.byte_counter;
        let mut i: usize = 0;
        while i < n
            invariant
                i <= n,
                n == taken@.len(),
                self.inner@ == sink,
                self.byte_counter == counter,
                self.buffer@ == window_of(before + taken@.take(i as int)),
                self.digest@ == before + taken@,
            decreases n - i,
        {
            let ghost sofar = before + taken@.take(i as int);
            self.buffer.push_back(taken[i]);
            if self.buffer.len() > HISTORY_SIZE {
                let _front = self.buffer.pop_front();
            }
            proof {
                assert(taken@.take(i + 1) =~= taken@.take(i as int).push(taken@[i as int]));
                assert(before + taken@.take(i + 1) =~= sofar.push(taken@[i as int]));
                assert(self.buffer@ =~= window_of(sofar.push(taken@[i as int])));
            }
            i = i + 1;
        }
        assert(taken@.take(n as int) =~= taken@);
        n
    }

    /// Writes all of `buf`, or fails where the sink does not take it all.
    pub fn write_all(&mut self, buf: &[u8]) -> (r: Result<(), DecodeError>)
        requires
            old(self).wf(),
        ensures
            final(self).wf(),
            (r, final(self)@) == old(self)@.write_all(buf@),
    {
        let n: usize = self.write(buf);
        if n < buf.len() {
            Err(DecodeError::new(ErrorKind::WriteZero, Field::Output))
        } else {
            Ok(())
        }
    }

    /// Writes one byte.
    pub fn write_u8(&mut self, byte: u8) -> (r: Result<(), DecodeError>)
        requires
            old(self).wf(),
        ensures
            final(self).wf(),
            (r, final(self)@) == old(self)@.write_all(seq![byte]),
    {
        let buf: [u8; 1] = [byte];
        assert(buf@ =~= seq![byte]);
        self.write_all(buf.as_slice())
    }

    /// Writes again `len` bytes of what was written `dist` bytes ago.
    pub fn write_previous(&mut self, dist: usize, len: usize) -> (r: Result<(), DecodeError>)
        requires
            old(self).wf(),
        ensures
            final(self).wf(),
            (r, final(self)@) == old(self)@.write_previous(dist as nat, len as nat),
    {
        broadcast use vstd::std_specs::vecdeque::axiom_spec_len;

        let have: usize = self.buffer.len();
        if have < dist {
            return Err(DecodeError::new(ErrorKind::BadBackReference, Field::Symbol));
        }
        let mut copy: Vec<u8> = Vec::new();
        if dist > 0 {
            let start: usize = have - dist;
            let mut i: usize = 0;
            while i < len
                invariant
                    i <= len,
                    0 < dist <= have,
                    start == have - dist,
                    have == self.buffer@.len(),
                    copy@ == back_reference(self.buffer@, dist as nat, i as nat),
                decreases len - i,
            {
                let offset: usize = i % dist;
                copy.push(self.buffer[start + offset]);
                assert(copy@ =~= back_reference(self.buffer@, dist as nat, (i + 1) as nat));
                i = i + 1;
            }
        } else {
            assert(copy@ =~= back_reference(self.buffer@, dist as nat, len as nat));
        }
        self.write_all(copy.as_slice())
    }

    /// Flushes the sink. Nothing of what the writer tracks changes.
    pub fn flush(&mut self)
        ensures
            final(self).wf() == old(self).wf(),
            final(self)@ == old(self)@,
    {
        self.inner.flush();
    }

    /// Forgets the member: the window, the checksum and the count start over.
    pub fn clear(&mut self)
        ensures
            final(self).wf(),
            final(self)@ == old(self)@.clear(),
    {
        self.buffer = VecDeque::new();
        self.byte_counter = 0;
        self.digest = Crc32Digest::new(self.table);
    }

    /// The number of bytes of the member so far, modulo 2^32.
    pub fn byte_count(&self) -> (n: u32)
        requires
            self.wf(),
        ensures
            n == self@.byte_count(),
    {
        self.byte_counter
    }

    /// The checksum of the bytes of the member so far.
    pub fn crc32(&self) -> (crc: u32)
        ensures
            crc == self@.crc32(),
    {
        self.digest.value()
    }

    /// The sink, with all that has been written to it.
    pub fn get_ref(&self) -> (sink: &ByteSink)
        ensures
            sink@ == self@.sink,
    {
        &self.inner
    }

    /// Gives the sink back.
    pub fn into_inner(self) -> (sink: ByteSink)
        ensures
            sink@ == self@.sink,
    {
        self.inner
    }
}

} // verus!
