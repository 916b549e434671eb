//! The simplest gzip member that holds given data: a bare header, one stored
//! block and the trailer. Decompressing it gives the data back.

use vstd::prelude::*;
use vstd::arithmetic::power2::{pow2, lemma2_to64};
use crate::bit_reader::{lemma_aligned, BitInput};
use crate::checksum::crc32_iso_hdlc;
use crate::deflate::DecoderState;
use crate::error::DecodeError;
use crate::gzip::{
    le_bytes, parse_header, read_fixed, read_trailer, MemberFlags, CM_DEFLATE,
    FCOMMENT_OFFSET, FEXTRA_OFFSET, FHCRC_OFFSET, FNAME_OFFSET, FTEXT_OFFSET, ID1, ID2,
};
use crate::sink::Output;
use crate::source::{le_value, lemma_le_value_small, Input};
use crate::tracking_writer::WriterState;
use crate::{blocks, gzip_stream, member, member_data, member_trailer, members};

verus! {

/// The header of a member with no optional field, no modification time and
/// an unknown operating system.
pub open spec fn bare_header() -> Seq<u8> {
    seq![ID1, ID2, CM_DEFLATE, 0u8, 0u8, 0u8, 0u8, 0u8, 0u8, 255u8]
}

/// The last and only block of a stream, stored: the block header in a byte
/// of its own, the length, its one's complement, and the data.
pub open spec fn stored_block_of(payload: Seq<u8>) -> Seq<u8> {
    seq![1u8] + le_bytes(payload.len(), 2) + le_bytes((0xffff - payload.len()) as nat, 2) + payload
}

/// The trailer of a member with the given data.
pub open spec fn trailer_of(payload: Seq<u8>) -> Seq<u8> {
    le_bytes(crc32_iso_hdlc(payload) as nat, 4) + le_bytes(payload.len() % 0x1_0000_0000, 4)
}

/// The member that holds `payload`, at most 65535 bytes, in one stored block.
pub open spec fn stored_member(payload: Seq<u8>) -> Seq<u8> {
    bare_header() + stored_block_of(payload) + trailer_of(payload)
}

/// A little-endian integer read back from its bytes.
pub proof fn lemma_le_round_trip(value: nat, n: nat)
    requires
        n == 2 || n == 4,
        value < pow2(8 * n),
    ensures
        le_bytes(value, n).len() == n,
        le_value(le_bytes(value, n)) == value,
{
    lemma2_to64();
    let bytes = le_bytes(value, n);
    lemma_le_value_small(bytes);
    assert(pow2((8 * 0) as nat) == 1);
    assert(bytes[0] == (value / 1) % 256);
    assert(bytes[1] == (value / 256) % 256);
    if n == 4 {
        assert(bytes[2] == (value / 65536) % 256);
        assert(bytes[3] == (value / 16777216) % 256);
    }
}

/// No flag is set in the flag byte zero.
proof fn lemma_no_flags()
    ensures
        !MemberFlags(0).has_bit(FTEXT_OFFSET),
        !MemberFlags(0).has_bit(FHCRC_OFFSET),
        !MemberFlags(0).has_bit(FEXTRA_OFFSET),
        !MemberFlags(0).has_bit(FNAME_OFFSET),
        !MemberFlags(0).has_bit(FCOMMENT_OFFSET),
{
    assert((0u8 >> 0u8) & 1 == 0) by (bit_vector);
    assert((0u8 >> 1u8) & 1 == 0) by (bit_vector);
    assert((0u8 >> 2u8) & 1 == 0) by (bit_vector);
    assert((0u8 >> 3u8) & 1 == 0) by (bit_vector);
    assert((0u8 >> 4u8) & 1 == 0) by (bit_vector);
}

/// The header of a stored member is read as a header of the method DEFLATE
/// with no optional field.
proof fn lemma_bare_header(payload: Seq<u8>)
    ensures
        parse_header(Input { data: stored_member(payload), pos: 0 }).0 is Ok,
        parse_header(Input { data: stored_member(payload), pos: 0 }).1 == (Input {
            data: stored_member(payload),
            pos: 10,
        }),
{
    reveal(parse_header);
    lemma_no_flags();
    let data = stored_member(payload);
    let src = Input { data, pos: 0 };
    assert(src.peek(2) =~= seq![ID1, ID2]);
    assert(src.peek(10) =~= bare_header());
    assert(read_fixed(src) == (Ok::<Seq<u8>, DecodeError>(bare_header()), src.advance(10)));
    assert(bare_header()[3] == 0);
    assert(bare_header()[2] == CM_DEFLATE);
}

/// The stored block of a stored member is decoded as the last block, its
/// data written to the sink as far as the sink takes them.
proof fn lemma_stored_block(payload: Seq<u8>, output: WriterState)
    requires
        payload.len() <= 0xffff,
    ensures
        blocks(
            DecoderState {
                input: BitInput::aligned(Input { data: stored_member(payload), pos: 10 }),
                output,
            },
            0,
        ) == (
            output.write_all(payload).0,
            DecoderState {
                input: BitInput::aligned(
                    Input { data: stored_member(payload), pos: 15 + payload.len() },
                ),
                output: output.write_all(payload).1,
            },
        ),
{
    reveal(blocks);
    reveal(DecoderState::next_block);
    lemma2_to64();
    let data = stored_member(payload);
    let len = payload.len();
    let src = Input { data, pos: 10 };
    lemma_aligned(src);
    let start = DecoderState { input: BitInput::aligned(src), output };
    assert(src.peek(1) =~= seq![1u8]);
    lemma_le_value_small(src.peek(1));
    let (bfinal, s1) = start.input.read_bits(1);
    assert(start.input.bytes_needed(1) == 1);
    assert(pow2(0) * 1 == 1);
    assert(bfinal is Ok && bfinal->Ok_0.bits == 1);
    assert(s1.bits == 0 && s1.nbits == 7 && s1.src.pos == 11);
    assert(s1.bytes_needed(2) == 0);
    assert(s1.src.peek(0) =~= Seq::<u8>::empty());
    assert(le_value(s1.src.peek(0)) == 0);
    assert(pow2(7) * 0 == 0);
    let (btype, s2) = s1.read_bits(2);
    assert(btype is Ok && btype->Ok_0.bits == 0);
    assert(s2.src == Input { data, pos: 11 });
    let at = Input { data, pos: 11 };
    lemma_le_round_trip(len, 2);
    lemma_le_round_trip((0xffff - len) as nat, 2);
    assert(at.peek(2) =~= le_bytes(len, 2));
    assert(at.advance(2).peek(2) =~= le_bytes((0xffff - len) as nat, 2));
    assert(at.advance(2).advance(2).peek(len) =~= payload);
    assert(at.advance(2).advance(2).advance(len) == Input { data, pos: 15 + len });
}

/// The trailer of a stored member agrees with its data.
proof fn lemma_stored_trailer(payload: Seq<u8>)
    requires
        payload.len() <= 0xffff,
    ensures
        read_trailer(Input { data: stored_member(payload), pos: 15 + payload.len() }) == (
            Ok::<(u32, u32), DecodeError>((crc32_iso_hdlc(payload), payload.len() as u32)),
            Input { data: stored_member(payload), pos: 23 + payload.len() },
        ),
        stored_member(payload).len() == 23 + payload.len(),
{
    lemma2_to64();
    let data = stored_member(payload);
    let len = payload.len();
    let at = Input { data, pos: 15 + len };
    lemma_le_round_trip(crc32_iso_hdlc(payload) as nat, 4);
    lemma_le_round_trip(len % 0x1_0000_0000, 4);
    assert(at.peek(4) =~= le_bytes(crc32_iso_hdlc(payload) as nat, 4));
    assert(at.advance(4).peek(4) =~= le_bytes(len % 0x1_0000_0000, 4));
}

/// Decompressing the stored member of `payload` into a sink that has room
/// for it succeeds and appends `payload` to the sink.
pub proof fn lemma_stored_round_trip(payload: Seq<u8>, sink: Output)
    requires
        payload.len() <= 0xffff,
        sink.accepts(payload.len()) == payload.len(),
    ensures
        gzip_stream(stored_member(payload), sink) == (Ok::<(), DecodeError>(()), sink.write(payload)),
        sink.write(payload).data == sink.data + payload,
{
    lemma2_to64();
    let data = stored_member(payload);
    let len = payload.len();
    let writer = WriterState { sink, member: Seq::empty() };
    let start = DecoderState { input: BitInput::aligned(Input { data, pos: 0 }), output: writer };
    lemma_bare_header(payload);
    lemma_stored_block(payload, writer);
    lemma_stored_trailer(payload);
    assert(payload.take(len as int) =~= payload);
    assert(Seq::<u8>::empty() + payload =~= payload);
    let written = writer.write_all(payload).1;
    assert(written.member == payload);
    let mid = member_data(start).1;
    assert(member_data(start).0 is Ok);
    assert(mid.output == written);
    assert(member_trailer(mid).0 is Ok);
    let after = member(start).1;
    assert(after.input.src == Input { data, pos: 23 + len });
    assert(members(after).0 is Ok);
    assert(members(after).1.output == after.output);
}

} // verus!
