//! What is written stays written: no step of the decoder takes anything
//! back from the sink, whether the step succeeds or fails.

use vstd::prelude::*;
use crate::bit_reader::{lemma_aligned, BitInput, BitSequence};
use crate::deflate::{compression_type_of, lemma_next_block, CompressionType, DecoderState};
use crate::gzip::{lemma_parse_header_forward, parse_header};
use crate::huffman_coding::{
    dynamic_codes, fixed_codes, lemma_dynamic_codes, lemma_read_extra, lemma_read_symbol_from,
    read_extra, read_symbol, DistanceToken, LitLenToken, MAX_BITS,
};
use crate::error::Field;
use crate::sink::Output;
use crate::source::Input;
use crate::tracking_writer::WriterState;
use crate::{blocks, gzip_stream, lemma_member, member, members};

verus! {

/// The sink `later` holds what `earlier` holds, and maybe more after it.
pub open spec fn keeps(earlier: Output, later: Output) -> bool {
    earlier.data.is_prefix_of(later.data)
}

/// Writing keeps what the sink holds.
pub proof fn lemma_write_keeps(w: WriterState, bytes: Seq<u8>, dist: nat, len: nat)
    ensures
        keeps(w.sink, w.write(bytes).sink),
        keeps(w.sink, w.write_all(bytes).1.sink),
        keeps(w.sink, w.write_previous(dist, len).1.sink),
        keeps(w.sink, w.clear().sink),
{
}

/// Decoding tokens keeps what the sink holds.
pub proof fn lemma_decode_tokens_keeps(
    st: DecoderState,
    lit_len: Map<BitSequence, LitLenToken>,
    distance: Map<BitSequence, DistanceToken>,
    index: nat,
)
    requires
        st.input.wf(),
    ensures
        keeps(st.output.sink, st.decode_tokens(lit_len, distance, index).1.output.sink),
    decreases st.input.remaining_bits(),
{
    let empty = BitSequence { bits: 0, len: 0 };
    lemma_read_symbol_from(lit_len, st.input, empty, MAX_BITS as nat);
    match read_symbol(lit_len, st.input) {
        (Err(e), input) => {},
        (Ok(LitLenToken::EndOfBlock), input) => {},
        (Ok(LitLenToken::Literal(byte)), input) => {
            lemma_write_keeps(st.output, seq![byte], 0, 0);
            match st.output.write_all(seq![byte]) {
                (Err(e), output) => {},
                (Ok(_), output) => {
                    lemma_decode_tokens_keeps(DecoderState { input, output }, lit_len, distance, index + 1);
                },
            }
        },
        (Ok(LitLenToken::Length { base, extra_bits }), input) => {
            lemma_read_extra(input, base, extra_bits, Field::Symbol);
            match read_extra(input, base, extra_bits, Field::Symbol) {
                (Err(e), after) => {},
                (Ok(len), after) => {
                    lemma_read_symbol_from(distance, after, empty, MAX_BITS as nat);
                    match read_symbol(distance, after) {
                        (Err(e), then) => {},
                        (Ok(token), then) => {
                            lemma_read_extra(then, token.base, token.extra_bits, Field::Symbol);
                            match read_extra(then, token.base, token.extra_bits, Field::Symbol) {
                                (Err(e), last) => {},
                                (Ok(dist), last) => {
                                    lemma_write_keeps(st.output, Seq::empty(), dist, len);
                                    match st.output.write_previous(dist, len) {
                                        (Err(e), output) => {},
                                        (Ok(_), output) => {
                                            lemma_decode_tokens_keeps(
                                                DecoderState { input: last, output },
                                                lit_len,
                                                distance,
                                                index + 1,
                                            );
                                        },
                                    }
                                },
                            }
                        },
                    }
                },
            }
        },
    }
}

/// Decoding a block keeps what the sink holds.
pub proof fn lemma_next_block_keeps(st: DecoderState)
    requires
        st.input.wf(),
    ensures
        keeps(st.output.sink, st.next_block().1.output.sink),
{
    reveal(DecoderState::next_block);
    crate::bit_reader::lemma_read_bits(st.input, 1);
    let (bfinal, s1) = st.input.read_bits(1);
    if bfinal is Ok {
        crate::bit_reader::lemma_read_bits(s1, 2);
        let (btype, s2) = s1.read_bits(2);
        if btype is Ok {
            let at = DecoderState { input: s2, output: st.output };
            match compression_type_of(btype->Ok_0.bits) {
                CompressionType::Uncompressed => {},
                CompressionType::FixedTree => {
                    match fixed_codes() {
                        Err(e) => {},
                        Ok((lit_len, distance)) => {
                            lemma_decode_tokens_keeps(at, lit_len, distance, 0);
                        },
                    }
                },
                CompressionType::DynamicTree => {
                    lemma_dynamic_codes(at.input);
                    match dynamic_codes(at.input) {
                        (Err(e), input) => {},
                        (Ok((lit_len, distance)), input) => {
                            lemma_decode_tokens_keeps(
                                DecoderState { input, output: at.output },
                                lit_len,
                                distance,
                                0,
                            );
                        },
                    }
                },
                CompressionType::Reserved => {},
            }
        }
    }
}

/// Decoding the blocks of a stream keeps what the sink holds.
pub proof fn lemma_blocks_keeps(st: DecoderState, index: nat)
    requires
        st.input.wf(),
    ensures
        keeps(st.output.sink, blocks(st, index).1.output.sink),
    decreases st.input.remaining_bits(),
{
    reveal(blocks);
    lemma_next_block(st);
    lemma_next_block_keeps(st);
    match st.next_block() {
        (Err(e), after) => {},
        (Ok(last), after) => {
            if !last {
                lemma_blocks_keeps(after, index + 1);
            }
        },
    }
}

/// Decoding a member keeps what the sink holds.
pub proof fn lemma_member_keeps(st: DecoderState)
    requires
        st.input.src.wf(),
    ensures
        keeps(st.output.sink, member(st).1.output.sink),
{
    lemma_parse_header_forward(st.input.src);
    let (header, src) = parse_header(st.input.src);
    lemma_aligned(src);
    if header is Ok {
        lemma_blocks_keeps(DecoderState { input: BitInput::aligned(src), output: st.output }, 0);
    }
}

/// Decoding the members of a stream keeps what the sink holds.
pub proof fn lemma_members_keeps(st: DecoderState)
    requires
        st.input.src.wf(),
    ensures
        keeps(st.output.sink, members(st).1.output.sink),
    decreases st.input.src.remaining(),
{
    if st.input.src.remaining() > 0 {
        lemma_member(st);
        lemma_member_keeps(st);
        if member(st).0 is Ok {
            lemma_members_keeps(member(st).1);
        }
    }
}

/// Decompressing appends to the sink: what the sink held stays in front,
/// also where decompressing fails.
pub proof fn lemma_decompress_keeps(input: Seq<u8>, sink: Output)
    ensures
        keeps(sink, gzip_stream(input, sink).1),
{
    lemma_members_keeps(
        DecoderState {
            input: BitInput::aligned(Input { data: input, pos: 0 }),
            output: WriterState { sink, member: Seq::empty() },
        },
    );
}

} // verus!
