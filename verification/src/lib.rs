//! A gzip decoder: the framing of RFC 1952 around the DEFLATE format of
//! RFC 1951, reading from a byte slice and writing to an in-memory sink.

use vstd::prelude::*;
use crate::bit_reader::{lemma_aligned, BitInput, BitReader};
use crate::checksum::Crc32;
use crate::deflate::{lemma_next_block, DecoderState, DeflateReader};
use crate::error::{
    error, in_block, index_of, next_index, tag_block, DecodeError, ErrorKind, Field,
};
use crate::gzip::{
    lemma_parse_header_forward, lemma_read_trailer_forward, lemma_truncated_name, parse_header,
    read_fixed, read_optional_extra, read_trailer, GzipReader, MemberFlags, FEXTRA_OFFSET,
    FNAME_OFFSET,
};
use crate::sink::{ByteSink, Output};
use crate::source::{ByteSource, Input};
use crate::tracking_writer::{TrackingWriter, WriterState};

// Each module after the ones that it builds on.
pub mod error;
pub mod checksum;
pub mod source;
pub mod sink;
pub mod bit_reader;
pub mod tracking_writer;
pub mod canonical;
pub mod huffman_coding;
pub mod deflate;
pub mod gzip;
pub mod kept;
pub mod locality;
pub mod stored;

verus! {

/// Decodes blocks up to and including the last block of a DEFLATE stream,
/// after `index` blocks of it. A failure carries the index of the block
/// that it was met in.
#[verifier::opaque]
pub open spec fn blocks(st: DecoderState, index: nat) -> (Result<(), DecodeError>, DecoderState)
    decreases st.input.remaining_bits(),
    when st.input.wf()
{
    match st.next_block() {
        (Err(e), after) => (Err(in_block(e, index)), after),
        (Ok(last), after) => if last {
            (Ok(()), after)
        } else {
            proof {
                lemma_next_block(st);
            }
            blocks(after, index + 1)
        },
    }
}

/// Decodes the header and the blocks of a member, from the byte boundary
/// that the reader is at or before.
pub open spec fn member_data(st: DecoderState) -> (Result<(), DecodeError>, DecoderState) {
    match parse_header(st.input.src) {
        (Err(e), src) => (Err(e), DecoderState { input: BitInput::aligned(src), output: st.output }),
        (Ok(_), src) => blocks(DecoderState { input: BitInput::aligned(src), output: st.output }, 0),
    }
}

/// Reads the trailer of a member from the next byte boundary and compares
/// it with the data written. The writer then starts over.
pub open spec fn member_trailer(st: DecoderState) -> (Result<(), DecodeError>, DecoderState) {
    match read_trailer(st.input.src) {
        (Err(e), src) => (Err(e), DecoderState { input: BitInput::aligned(src), output: st.output }),
        (Ok((crc32, isize)), src) => match st.check_trailer(crc32, isize) {
            Err(e) => (Err(e), DecoderState { input: BitInput::aligned(src), output: st.output }),
            Ok(_) => (
                Ok(()),
                DecoderState { input: BitInput::aligned(src), output: st.output.clear() },
            ),
        },
    }
}

/// Decodes one member: its header, its blocks and its trailer.
pub open spec fn member(st: DecoderState) -> (Result<(), DecodeError>, DecoderState) {
    match member_data(st) {
        (Err(e), after) => (Err(e), after),
        (Ok(_), after) => member_trailer(after),
    }
}

/// Decodes one member after another until the input is used up.
pub open spec fn members(st: DecoderState) -> (Result<(), DecodeError>, DecoderState)
    decreases st.input.src.remaining(),
    when st.input.src.wf()
{
    if st.input.src.remaining() == 0 {
        (Ok(()), DecoderState { input: BitInput::aligned(st.input.src), output: st.output })
    } else {
        match member(st) {
            (Err(e), after) => (Err(e), after),
            (Ok(_), after) => {
                proof {
                    lemma_member(st);
                }
                members(after)
            },
        }
    }
}

/// What decompressing `input` into `sink` gives: the result, and the sink
/// with the data of all members that were decoded, up to the first failure
/// if there is one.
pub open spec fn gzip_stream(input: Seq<u8>, sink: Output) -> (Result<(), DecodeError>, Output) {
    let start = DecoderState {
        input: BitInput::aligned(Input { data: input, pos: 0 }),
        output: WriterState { sink, member: Seq::empty() },
    };
    (members(start).0, members(start).1.output.sink)
}

/// Decoding blocks keeps the reader well formed and never gives bits back.
pub proof fn lemma_blocks(st: DecoderState, index: nat)
    requires
        st.input.wf(),
    ensures
        blocks(st, index).1.input.wf(),
        blocks(st, index).1.input.src.data == st.input.src.data,
        blocks(st, index).1.input.src.pos >= st.input.src.pos,
        blocks(st, index).1.input.remaining_bits() <= st.input.remaining_bits(),
    decreases st.input.remaining_bits(),
{
    reveal(blocks);
    lemma_next_block(st);
    match st.next_block() {
        (Err(e), after) => {},
        (Ok(last), after) => {
            if !last {
                lemma_blocks(after, index + 1);
            }
        },
    }
}

/// Decoding a member keeps the reader well formed; a member that is decoded
/// takes at least the ten bytes of its header and the eight of its trailer,
/// and leaves the reader at a byte boundary.
pub proof fn lemma_member(st: DecoderState)
    requires
        st.input.src.wf(),
    ensures
        member(st).1.input.wf(),
        member(st).0 is Ok ==> member(st).1.input.nbits == 0,
        member(st).1.input.src.data == st.input.src.data,
        member(st).1.input.src.pos >= st.input.src.pos,
        member(st).1.input.src.remaining() <= st.input.src.remaining(),
        member(st).0 is Ok ==> member(st).1.input.src.remaining() + 18
            <= st.input.src.remaining(),
        member(st).0 is Ok ==> member(st).1.input.src.pos == member_data(st).1.input.src.pos + 8,
        member_data(st).1.input.src.wf(),
        member_data(st).1.input.src.data == st.input.src.data,
        member_data(st).1.input.src.pos >= st.input.src.pos,
{
    lemma_parse_header_forward(st.input.src);
    let (header, src) = parse_header(st.input.src);
    lemma_aligned(src);
    if header is Ok {
        let at = DecoderState { input: BitInput::aligned(src), output: st.output };
        lemma_blocks(at, 0);
        let (done, after) = blocks(at, 0);
        if done is Ok {
            lemma_read_trailer_forward(after.input.src);
            lemma_aligned(read_trailer(after.input.src).1);
        }
    }
}

/// A member whose data are decoded, and whose trailer holds another CRC-32
/// than that of the data, fails with a trailer mismatch, and the stream
/// fails with it.
pub proof fn lemma_corrupted_crc(st: DecoderState)
    requires
        st.input.src.wf(),
        member_data(st).0 is Ok,
        read_trailer(member_data(st).1.input.src).0 is Ok,
        read_trailer(member_data(st).1.input.src).0->Ok_0.0 != member_data(st).1.output.crc32(),
    ensures
        member(st).0 == Err::<(), DecodeError>(error(ErrorKind::TrailerMismatch, Field::Trailer)),
        members(st).0 == Err::<(), DecodeError>(error(ErrorKind::TrailerMismatch, Field::Trailer)),
        members(st).1.output.sink == member_data(st).1.output.sink,
{
    lemma_parse_header_forward(st.input.src);
}

/// A stream that ends inside the name of a member header, before the zero
/// byte that ends the name, fails as truncated input, with nothing written.
pub proof fn lemma_truncated_in_name(st: DecoderState)
    requires
        st.input.src.wf(),
        read_fixed(st.input.src).0 is Ok,
        MemberFlags(read_fixed(st.input.src).0->Ok_0[3]).has_bit(FNAME_OFFSET),
        read_optional_extra(
            read_fixed(st.input.src).1,
            MemberFlags(read_fixed(st.input.src).0->Ok_0[3]).has_bit(FEXTRA_OFFSET),
        ).0 is Ok,
        forall|i: int|
            read_optional_extra(
                read_fixed(st.input.src).1,
                MemberFlags(read_fixed(st.input.src).0->Ok_0[3]).has_bit(FEXTRA_OFFSET),
            ).1.pos <= i < st.input.src.data.len() ==> st.input.src.data[i] != 0,
    ensures
        member(st).0 == Err::<(), DecodeError>(error(ErrorKind::UnexpectedEof, Field::Name)),
        members(st).0 == Err::<(), DecodeError>(error(ErrorKind::UnexpectedEof, Field::Name)),
        members(st).1.output == st.output,
{
    lemma_truncated_name(st.input.src);
}

/// Decompressing an input whose first member has a name that no zero byte
/// ends fails as truncated input, and leaves the sink as it was.
pub proof fn lemma_truncated_in_first_name(input: Seq<u8>, sink: Output)
    requires
        read_fixed(Input { data: input, pos: 0 }).0 is Ok,
        MemberFlags(input[3]).has_bit(FNAME_OFFSET),
        read_optional_extra(
            Input { data: input, pos: 10 },
            MemberFlags(input[3]).has_bit(FEXTRA_OFFSET),
        ).0 is Ok,
        forall|i: int|
            read_optional_extra(
                Input { data: input, pos: 10 },
                MemberFlags(input[3]).has_bit(FEXTRA_OFFSET),
            ).1.pos <= i < input.len() ==> input[i] != 0,
    ensures
        gzip_stream(input, sink) == (
            Err::<(), DecodeError>(error(ErrorKind::UnexpectedEof, Field::Name)),
            sink,
        ),
{
    let src = Input { data: input, pos: 0 };
    assert(read_fixed(src).0->Ok_0 == src.peek(10));
    assert(read_fixed(src).1 == Input { data: input, pos: 10 });
    lemma_truncated_in_name(
        DecoderState {
            input: BitInput::aligned(src),
            output: WriterState { sink, member: Seq::empty() },
        },
    );
}

/// Decodes the blocks of a DEFLATE stream up to and including its last. A
/// failure carries the index of the block that it was met in.
pub fn decode_blocks(deflate: &mut DeflateReader) -> (r: Result<(), DecodeError>)
    requires
        old(deflate).wf(),
    ensures
        final(deflate).wf(),
        (r, final(deflate)@) == blocks(old(deflate)@, 0),
{
    let mut index: u64 = 0;
    let ghost mut count: nat = 0;
    loop
        invariant
            deflate.wf(),
            index == index_of(count),
            blocks(deflate@, count) == blocks(old(deflate)@, 0),
        decreases deflate@.input.remaining_bits(),
    {
        proof {
            reveal(blocks);
            lemma_next_block(deflate@);
        }
        if tag_block(deflate.next_block(), index)? {
            return Ok(());
        }
        index = next_index(index, Ghost(count));
        proof {
            count = count + 1;
        }
    }
}

/// Decodes one member: its header, its blocks and its trailer.
pub fn decode_member(deflate: &mut DeflateReader) -> (r: Result<(), DecodeError>)
    requires
        old(deflate).wf(),
    ensures
        final(deflate).wf(),
        (r, final(deflate)@) == member(old(deflate)@),
{
    proof {
        vstd::arithmetic::power2::lemma2_to64();
    }
    let gzip_reader = GzipReader::new(deflate.get_input());
    gzip_reader.parse_header()?;
    decode_blocks(deflate)?;
    let gzip_reader = GzipReader::new(deflate.get_input());
    let (crc32, isize) = gzip_reader.read_crc32_and_isize()?;
    deflate.check_crc32_and_isize(crc32, isize)?;
    deflate.output();
    Ok(())
}

/// Decodes members until the input is used up.
pub fn decode_members(deflate: &mut DeflateReader) -> (r: Result<(), DecodeError>)
    requires
        old(deflate).wf(),
    ensures
        final(deflate).wf(),
        (r, final(deflate)@) == members(old(deflate)@),
{
    proof {
        vstd::arithmetic::power2::lemma2_to64();
    }
    loop
        invariant
            deflate.wf(),
            members(deflate@) == members(old(deflate)@),
        decreases deflate@.input.src.remaining(),
    {
        proof {
            lemma_member(deflate@);
            vstd::arithmetic::power2::lemma2_to64();
        }
        if deflate.get_input().is_empty() {
            return Ok(());
        }
        decode_member(deflate)?;
    }
}

/// Decompresses the gzip members in `input`, one after another, into
/// `output`. What was written before a failure stays in `output`.
pub fn decompress(input: &[u8], output: &mut ByteSink) -> (r: Result<(), DecodeError>)
    ensures
        (r, final(output)@) == gzip_stream(input@, old(output)@),
{
    proof {
        vstd::arithmetic::power2::lemma2_to64();
    }
    let table = Crc32::new();
    let mut sink = ByteSink::new();
    core::mem::swap(output, &mut sink);
    let mut deflate = DeflateReader::new(
        BitReader::new(ByteSource::new(input)),
        TrackingWriter::new(sink, &table),
    );
    let r = decode_members(&mut deflate);
    let mut sink = deflate.into_writer().into_inner();
    core::mem::swap(output, &mut sink);
    r
}

} // verus!
