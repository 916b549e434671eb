//! Decoding reads forward only. A step that ends at or before some position
//! of the input gives the same on every input of the same length that
//! agrees with it up to that position.

use vstd::prelude::*;
use crate::bit_reader::{lemma_aligned, lemma_read_bits, BitInput, BitSequence};
use crate::deflate::{
    compression_type_of, lemma_block_data, lemma_decode_tokens, lemma_next_block,
    CompressionType, DecoderState,
};
use crate::error::{error, DecodeError, ErrorKind, Field};
use crate::gzip::{
    lemma_find_byte_bounds, lemma_parse_header_forward, lemma_read_fields_forward,
    lemma_read_optional_forward, lemma_read_trailer_forward, parse_header, read_fields, read_fixed,
    read_optional_extra, read_optional_text, read_trailer, MemberFlags, FCOMMENT_OFFSET,
    FEXTRA_OFFSET, FNAME_OFFSET,
};
use crate::huffman_coding::{fixed_codes, lemma_dynamic_codes, DistanceToken, LitLenToken};
use crate::sink::Output;
use crate::source::{le_value, lemma_le_value_bound};
use crate::tracking_writer::WriterState;
use crate::{
    blocks, gzip_stream, lemma_blocks, lemma_corrupted_crc, lemma_member, member, member_data,
    members,
};
use crate::huffman_coding::{
    code_length_code, dynamic_codes, lemma_read_code_length_lengths,
    lemma_read_extra, lemma_read_lengths, lemma_read_symbol_from, lit_len_code, no_lengths,
    filled, read_code_length_lengths, read_extra, read_lengths, read_symbol, read_symbol_from,
    special_order, TreeCodeToken, MAX_BITS,
};
use crate::source::{find_byte, Input};

verus! {

/// Two inputs of one length that hold the same bytes before `upto`.
pub open spec fn same_upto(a: Seq<u8>, b: Seq<u8>, upto: nat) -> bool {
    &&& a.len() == b.len()
    &&& forall|i: int| 0 <= i < upto && i < a.len() ==> a[i] == b[i]
}

/// The source at the same position over other bytes.
pub open spec fn source_over(src: Input, data: Seq<u8>) -> Input {
    Input { data, pos: src.pos }
}

/// The bit reader in the same state over other bytes.
pub open spec fn bits_over(st: BitInput, data: Seq<u8>) -> BitInput {
    BitInput { src: source_over(st.src, data), bits: st.bits, nbits: st.nbits }
}

/// Reading bytes, or a little-endian integer, depends only on the bytes up to
/// where the read ends.
pub proof fn lemma_read_exact_local(src: Input, data: Seq<u8>, upto: nat, n: nat)
    requires
        src.wf(),
        same_upto(src.data, data, upto),
        src.read_exact(n).1.pos <= upto,
    ensures
        source_over(src, data).read_exact(n) == (
            src.read_exact(n).0,
            source_over(src.read_exact(n).1, data),
        ),
        source_over(src, data).read_le(n) == (
            src.read_le(n).0,
            source_over(src.read_le(n).1, data),
        ),
{
    if src.pos + n <= src.data.len() {
        assert(src.peek(n) =~= source_over(src, data).peek(n));
    }
}

/// Where a byte is first found depends only on the bytes up to there.
pub proof fn lemma_find_byte_local(a: Seq<u8>, b: Seq<u8>, upto: nat, from: nat, delim: u8)
    requires
        same_upto(a, b, upto),
        from <= a.len(),
        find_byte(a, from, delim) < upto || a.len() <= upto,
    ensures
        find_byte(b, from, delim) == find_byte(a, from, delim),
    decreases a.len() - from,
{
    if from < a.len() {
        lemma_find_byte_bounds(a, from, delim);
        if a[from as int] != delim {
            lemma_find_byte_bounds(a, from + 1, delim);
            lemma_find_byte_local(a, b, upto, from + 1, delim);
        }
    }
}

/// Reading up to a delimiter depends only on the bytes up to where the read
/// ends.
pub proof fn lemma_read_until_local(src: Input, data: Seq<u8>, upto: nat, delim: u8)
    requires
        src.wf(),
        same_upto(src.data, data, upto),
        src.read_until(delim).1.pos <= upto,
    ensures
        source_over(src, data).read_until(delim) == (
            src.read_until(delim).0,
            source_over(src.read_until(delim).1, data),
        ),
{
    lemma_find_byte_bounds(src.data, src.pos, delim);
    lemma_find_byte_local(src.data, data, upto, src.pos, delim);
    let at = find_byte(src.data, src.pos, delim);
    if at < src.data.len() {
        assert(src.peek((at + 1 - src.pos) as nat) =~= source_over(src, data).peek(
            (at + 1 - src.pos) as nat,
        ));
    } else {
        assert(src.peek(src.remaining()) =~= source_over(src, data).peek(src.remaining()));
    }
}

/// Reading bits depends only on the bytes up to where the read ends.
pub proof fn lemma_read_bits_local(st: BitInput, data: Seq<u8>, upto: nat, n: nat)
    requires
        st.wf(),
        same_upto(st.src.data, data, upto),
        st.read_bits(n).1.src.pos <= upto,
    ensures
        bits_over(st, data).read_bits(n) == (st.read_bits(n).0, bits_over(st.read_bits(n).1, data)),
{
    let k = st.bytes_needed(n);
    if st.src.pos + k <= st.src.data.len() {
        assert(st.src.peek(k) =~= source_over(st.src, data).peek(k));
    }
}

/// Reading a symbol depends only on the bytes up to where the read ends.
pub proof fn lemma_read_symbol_local<T>(
    table: Map<BitSequence, T>,
    st: BitInput,
    prefix: BitSequence,
    tries: nat,
    data: Seq<u8>,
    upto: nat,
)
    requires
        st.wf(),
        same_upto(st.src.data, data, upto),
        read_symbol_from(table, st, prefix, tries).1.src.pos <= upto,
    ensures
        read_symbol_from(table, bits_over(st, data), prefix, tries) == (
            read_symbol_from(table, st, prefix, tries).0,
            bits_over(read_symbol_from(table, st, prefix, tries).1, data),
        ),
    decreases tries,
{
    if tries > 0 {
        lemma_read_bits(st, 1);
        let (r, next) = st.read_bits(1);
        if r is Ok {
            let longer = prefix.joined(r->Ok_0);
            lemma_read_symbol_from(table, next, longer, (tries - 1) as nat);
            lemma_read_bits_local(st, data, upto, 1);
            if !table.contains_key(longer) {
                lemma_read_symbol_local(table, next, longer, (tries - 1) as nat, data, upto);
            }
        } else {
            lemma_read_bits_local(st, data, upto, 1);
        }
    }
}

/// Reading extra bits depends only on the bytes up to where the read ends.
pub proof fn lemma_read_extra_local(
    st: BitInput,
    base: u16,
    extra_bits: u8,
    field: Field,
    data: Seq<u8>,
    upto: nat,
)
    requires
        st.wf(),
        same_upto(st.src.data, data, upto),
        read_extra(st, base, extra_bits, field).1.src.pos <= upto,
    ensures
        read_extra(bits_over(st, data), base, extra_bits, field) == (
            read_extra(st, base, extra_bits, field).0,
            bits_over(read_extra(st, base, extra_bits, field).1, data),
        ),
{
    if extra_bits <= 16 {
        lemma_read_bits_local(st, data, upto, extra_bits as nat);
    }
}

/// Reading the lengths of the code-length alphabet depends only on the bytes
/// up to where the read ends.
pub proof fn lemma_read_code_length_lengths_local(
    st: BitInput,
    lengths: Seq<u8>,
    from: nat,
    count: nat,
    data: Seq<u8>,
    upto: nat,
)
    requires
        st.wf(),
        same_upto(st.src.data, data, upto),
        read_code_length_lengths(st, lengths, from, count).1.src.pos <= upto,
    ensures
        read_code_length_lengths(bits_over(st, data), lengths, from, count) == (
            read_code_length_lengths(st, lengths, from, count).0,
            bits_over(read_code_length_lengths(st, lengths, from, count).1, data),
        ),
    decreases count - from,
{
    if from < count {
        lemma_read_bits(st, 3);
        let (r, next) = st.read_bits(3);
        if r is Ok {
            let longer = lengths.update(special_order()[from as int] as int, r->Ok_0.bits as u8);
            lemma_read_code_length_lengths(next, longer, from + 1, count);
            lemma_read_bits_local(st, data, upto, 3);
            lemma_read_code_length_lengths_local(next, longer, from + 1, count, data, upto);
        } else {
            lemma_read_bits_local(st, data, upto, 3);
        }
    }
}

/// Reading code lengths depends only on the bytes up to where the read ends.
pub proof fn lemma_read_lengths_local(
    table: Map<BitSequence, TreeCodeToken>,
    st: BitInput,
    lengths: Seq<u8>,
    pos: nat,
    count: nat,
    data: Seq<u8>,
    upto: nat,
)
    requires
        st.wf(),
        count <= lengths.len(),
        same_upto(st.src.data, data, upto),
        read_lengths(table, st, lengths, pos, count).1.src.pos <= upto,
    ensures
        read_lengths(table, bits_over(st, data), lengths, pos, count) == (
            read_lengths(table, st, lengths, pos, count).0,
            bits_over(read_lengths(table, st, lengths, pos, count).1, data),
        ),
    decreases lengths.len() + count - pos,
{
    if pos < count {
        let empty = BitSequence { bits: 0, len: 0 };
        lemma_read_symbol_from(table, st, empty, MAX_BITS as nat);
        match read_symbol(table, st) {
            (Err(e), next) => {
                lemma_read_symbol_local(table, st, empty, MAX_BITS as nat, data, upto);
            },
            (Ok(TreeCodeToken::Length(len)), next) => {
                let longer = lengths.update(pos as int, len);
                lemma_read_lengths(table, next, longer, pos + 1, count);
                lemma_read_symbol_local(table, st, empty, MAX_BITS as nat, data, upto);
                lemma_read_lengths_local(table, next, longer, pos + 1, count, data, upto);
            },
            (Ok(TreeCodeToken::CopyPrev), next) => {
                lemma_read_extra(next, 3, 2, Field::HuffmanTable);
                match read_extra(next, 3, 2, Field::HuffmanTable) {
                    (Err(e), after) => {
                        lemma_read_symbol_local(table, st, empty, MAX_BITS as nat, data, upto);
                        lemma_read_extra_local(next, 3, 2, Field::HuffmanTable, data, upto);
                    },
                    (Ok(n), after) => {
                        if !(pos == 0 || n == 0 || pos + n > lengths.len()) {
                            let longer = filled(lengths, pos, n, lengths[pos - 1]);
                            lemma_read_lengths(table, after, longer, pos + n, count);
                            lemma_read_lengths_local(
                                table,
                                after,
                                longer,
                                pos + n,
                                count,
                                data,
                                upto,
                            );
                        }
                        lemma_read_symbol_local(table, st, empty, MAX_BITS as nat, data, upto);
                        lemma_read_extra_local(next, 3, 2, Field::HuffmanTable, data, upto);
                    },
                }
            },
            (Ok(TreeCodeToken::RepeatZero { base, extra_bits }), next) => {
                lemma_read_extra(next, base, extra_bits, Field::HuffmanTable);
                match read_extra(next, base, extra_bits, Field::HuffmanTable) {
                    (Err(e), after) => {
                        lemma_read_symbol_local(table, st, empty, MAX_BITS as nat, data, upto);
                        lemma_read_extra_local(
                            next,
                            base,
                            extra_bits,
                            Field::HuffmanTable,
                            data,
                            upto,
                        );
                    },
                    (Ok(n), after) => {
                        if !(n == 0 || pos + n > lengths.len()) {
                            let longer = filled(lengths, pos, n, 0);
                            lemma_read_lengths(table, after, longer, pos + n, count);
                            lemma_read_lengths_local(
                                table,
                                after,
                                longer,
                                pos + n,
                                count,
                                data,
                                upto,
                            );
                        }
                        lemma_read_symbol_local(table, st, empty, MAX_BITS as nat, data, upto);
                        lemma_read_extra_local(
                            next,
                            base,
                            extra_bits,
                            Field::HuffmanTable,
                            data,
                            upto,
                        );
                    },
                }
            },
        }
    }
}

/// Reading the codes of a block depends only on the bytes up to where the
/// read ends.
pub proof fn lemma_dynamic_codes_local(st: BitInput, data: Seq<u8>, upto: nat)
    requires
        st.wf(),
        same_upto(st.src.data, data, upto),
        dynamic_codes(st).1.src.pos <= upto,
    ensures
        dynamic_codes(bits_over(st, data)) == (
            dynamic_codes(st).0,
            bits_over(dynamic_codes(st).1, data),
        ),
{
    let field = Field::HuffmanTable;
    lemma_read_extra(st, 0, 5, field);
    let (hlit, s1) = read_extra(st, 0, 5, field);
    if hlit is Ok {
        lemma_read_extra(s1, 0, 5, field);
        let (hdist, s2) = read_extra(s1, 0, 5, field);
        if hdist is Ok {
            lemma_read_extra(s2, 0, 4, field);
            let (hclen, s3) = read_extra(s2, 0, 4, field);
            if hclen is Ok {
                lemma_read_code_length_lengths(s3, no_lengths(19), 0, hclen->Ok_0 + 4);
                let (table, s4) = code_length_code(s3, hclen->Ok_0);
                if table is Ok {
                    if hlit->Ok_0 + 257 <= 286 {
                        lemma_read_lengths(
                            table->Ok_0,
                            s4,
                            no_lengths(286),
                            0,
                            hlit->Ok_0 + 257,
                        );
                    }
                    let (lit_len, s5) = lit_len_code(table->Ok_0, s4, hlit->Ok_0);
                    if lit_len is Ok {
                        if hdist->Ok_0 + 1 <= 32 {
                            lemma_read_lengths(table->Ok_0, s5, no_lengths(32), 0, hdist->Ok_0 + 1);
                            lemma_read_lengths_local(
                                table->Ok_0,
                                s5,
                                no_lengths(32),
                                0,
                                hdist->Ok_0 + 1,
                                data,
                                upto,
                            );
                        }
                    }
                    if hlit->Ok_0 + 257 <= 286 {
                        lemma_read_lengths_local(
                            table->Ok_0,
                            s4,
                            no_lengths(286),
                            0,
                            hlit->Ok_0 + 257,
                            data,
                            upto,
                        );
                    }
                }
                lemma_read_code_length_lengths_local(
                    s3,
                    no_lengths(19),
                    0,
                    hclen->Ok_0 + 4,
                    data,
                    upto,
                );
            }
            lemma_read_extra_local(s2, 0, 4, field, data, upto);
        }
        lemma_read_extra_local(s1, 0, 5, field, data, upto);
    }
    lemma_read_extra_local(st, 0, 5, field, data, upto);
}

/// The decoder in the same state over other bytes.
pub open spec fn decoder_over(st: DecoderState, data: Seq<u8>) -> DecoderState {
    DecoderState { input: bits_over(st.input, data), output: st.output }
}

/// Decoding tokens depends only on the bytes up to where the decoder stops.
pub proof fn lemma_decode_tokens_local(
    st: DecoderState,
    lit_len: Map<BitSequence, LitLenToken>,
    distance: Map<BitSequence, DistanceToken>,
    data: Seq<u8>,
    upto: nat,
    index: nat,
)
    requires
        st.input.wf(),
        same_upto(st.input.src.data, data, upto),
        st.decode_tokens(lit_len, distance, index).1.input.src.pos <= upto,
    ensures
        decoder_over(st, data).decode_tokens(lit_len, distance, index) == (
            st.decode_tokens(lit_len, distance, index).0,
            decoder_over(st.decode_tokens(lit_len, distance, index).1, data),
        ),
    decreases st.input.remaining_bits(),
{
    let empty = BitSequence { bits: 0, len: 0 };
    let field = Field::Symbol;
    lemma_read_symbol_from(lit_len, st.input, empty, MAX_BITS as nat);
    match read_symbol(lit_len, st.input) {
        (Err(e), input) => {
            lemma_read_symbol_local(lit_len, st.input, empty, MAX_BITS as nat, data, upto);
        },
        (Ok(LitLenToken::EndOfBlock), input) => {
            lemma_read_symbol_local(lit_len, st.input, empty, MAX_BITS as nat, data, upto);
        },
        (Ok(LitLenToken::Literal(byte)), input) => {
            match st.output.write_all(seq![byte]) {
                (Err(e), output) => {},
                (Ok(_), output) => {
                    let next = DecoderState { input, output };
                    lemma_decode_tokens(next, lit_len, distance, index + 1);
                    lemma_decode_tokens_local(next, lit_len, distance, data, upto, index + 1);
                },
            }
            lemma_read_symbol_local(lit_len, st.input, empty, MAX_BITS as nat, data, upto);
        },
        (Ok(LitLenToken::Length { base, extra_bits }), input) => {
            lemma_read_extra(input, base, extra_bits, field);
            match read_extra(input, base, extra_bits, field) {
                (Err(e), after) => {},
                (Ok(len), after) => {
                    lemma_read_symbol_from(distance, after, empty, MAX_BITS as nat);
                    match read_symbol(distance, after) {
                        (Err(e), then) => {},
                        (Ok(token), then) => {
                            lemma_read_extra(then, token.base, token.extra_bits, field);
                            match read_extra(then, token.base, token.extra_bits, field) {
                                (Err(e), last) => {},
                                (Ok(dist), last) => {
                                    match st.output.write_previous(dist, len) {
                                        (Err(e), output) => {},
                                        (Ok(_), output) => {
                                            let next = DecoderState { input: last, output };
                                            lemma_decode_tokens(next, lit_len, distance, index + 1);
                                            lemma_decode_tokens_local(
                                                next,
                                                lit_len,
                                                distance,
                                                data,
                                                upto,
                                                index + 1,
                                            );
                                        },
                                    }
                                },
                            }
                            lemma_read_extra_local(
                                then,
                                token.base,
                                token.extra_bits,
                                field,
                                data,
                                upto,
                            );
                        },
                    }
                    lemma_read_symbol_local(distance, after, empty, MAX_BITS as nat, data, upto);
                },
            }
            lemma_read_extra_local(input, base, extra_bits, field, data, upto);
            lemma_read_symbol_local(lit_len, st.input, empty, MAX_BITS as nat, data, upto);
        },
    }
}

/// Decoding a stored block depends only on the bytes up to where the decoder
/// stops.
pub proof fn lemma_stored_block_local(st: DecoderState, data: Seq<u8>, upto: nat)
    requires
        st.input.src.wf(),
        same_upto(st.input.src.data, data, upto),
        st.stored_block().1.input.src.pos <= upto,
    ensures
        decoder_over(st, data).stored_block() == (
            st.stored_block().0,
            decoder_over(st.stored_block().1, data),
        ),
{
    let src = st.input.src;
    let (len, s1) = src.read_le(2);
    if len is Ok {
        let (nlen, s2) = s1.read_le(2);
        if nlen is Ok {
            if len->Ok_0 + nlen->Ok_0 == 0xffff {
                lemma_read_exact_local(s2, data, upto, len->Ok_0);
            }
        }
        lemma_read_exact_local(s1, data, upto, 2);
    }
    lemma_read_exact_local(src, data, upto, 2);
}

/// Decoding the data of a block depends only on the bytes up to where the
/// decoder stops.
pub proof fn lemma_block_data_local(
    st: DecoderState,
    compression_type: CompressionType,
    data: Seq<u8>,
    upto: nat,
)
    requires
        st.input.wf(),
        same_upto(st.input.src.data, data, upto),
        st.block_data(compression_type).1.input.src.pos <= upto,
    ensures
        decoder_over(st, data).block_data(compression_type) == (
            st.block_data(compression_type).0,
            decoder_over(st.block_data(compression_type).1, data),
        ),
{
    match compression_type {
        CompressionType::Uncompressed => {
            lemma_stored_block_local(st, data, upto);
        },
        CompressionType::FixedTree => {
            match fixed_codes() {
                Err(e) => {},
                Ok((lit_len, distance)) => {
                    lemma_decode_tokens_local(st, lit_len, distance, data, upto, 0);
                },
            }
        },
        CompressionType::DynamicTree => {
            lemma_dynamic_codes(st.input);
            match dynamic_codes(st.input) {
                (Err(e), input) => {},
                (Ok((lit_len, distance)), input) => {
                    let next = DecoderState { input, output: st.output };
                    lemma_decode_tokens(next, lit_len, distance, 0);
                    lemma_decode_tokens_local(next, lit_len, distance, data, upto, 0);
                },
            }
            lemma_dynamic_codes_local(st.input, data, upto);
        },
        CompressionType::Reserved => {},
    }
}

/// Decoding a block depends only on the bytes up to where the decoder stops.
pub proof fn lemma_next_block_local(st: DecoderState, data: Seq<u8>, upto: nat)
    requires
        st.input.wf(),
        same_upto(st.input.src.data, data, upto),
        st.next_block().1.input.src.pos <= upto,
    ensures
        decoder_over(st, data).next_block() == (
            st.next_block().0,
            decoder_over(st.next_block().1, data),
        ),
{
    reveal(DecoderState::next_block);
    lemma_read_bits(st.input, 1);
    let (bfinal, s1) = st.input.read_bits(1);
    if bfinal is Ok {
        lemma_read_bits(s1, 2);
        let (btype, s2) = s1.read_bits(2);
        if btype is Ok {
            let at = DecoderState { input: s2, output: st.output };
            let compression_type = compression_type_of(btype->Ok_0.bits);
            lemma_block_data(at, compression_type);
            lemma_block_data_local(at, compression_type, data, upto);
        }
        lemma_read_bits_local(s1, data, upto, 2);
    }
    lemma_read_bits_local(st.input, data, upto, 1);
}

/// Decoding the blocks of a stream depends only on the bytes up to where the
/// decoder stops.
pub proof fn lemma_blocks_local(st: DecoderState, data: Seq<u8>, upto: nat, index: nat)
    requires
        st.input.wf(),
        same_upto(st.input.src.data, data, upto),
        blocks(st, index).1.input.src.pos <= upto,
    ensures
        blocks(decoder_over(st, data), index) == (blocks(st, index).0, decoder_over(blocks(st, index).1, data)),
    decreases st.input.remaining_bits(),
{
    reveal(blocks);
    lemma_next_block(st);
    match st.next_block() {
        (Err(e), after) => {},
        (Ok(last), after) => {
            if !last {
                lemma_blocks(after, index + 1);
                lemma_blocks_local(after, data, upto, index + 1);
            }
        },
    }
    lemma_next_block_local(st, data, upto);
}

/// Reading the first ten bytes of a header depends only on the bytes up to
/// where the read ends.
pub proof fn lemma_read_fixed_local(src: Input, data: Seq<u8>, upto: nat)
    requires
        src.wf(),
        same_upto(src.data, data, upto),
        read_fixed(src).1.pos <= upto,
    ensures
        read_fixed(source_over(src, data)) == (
            read_fixed(src).0,
            source_over(read_fixed(src).1, data),
        ),
{
    let other = source_over(src, data);
    if src.remaining() >= 2 {
        assert(src.peek(2) =~= other.peek(2));
        if src.remaining() >= 10 && src.peek(2) == seq![crate::gzip::ID1, crate::gzip::ID2] {
            assert(src.peek(10) =~= other.peek(10));
        }
    }
}

/// Reading an optional field of a header depends only on the bytes up to
/// where the read ends.
pub proof fn lemma_read_optional_local(
    src: Input,
    present: bool,
    field: Field,
    data: Seq<u8>,
    upto: nat,
)
    requires
        src.wf(),
        same_upto(src.data, data, upto),
    ensures
        read_optional_extra(src, present).1.pos <= upto ==> read_optional_extra(
            source_over(src, data),
            present,
        ) == (
            read_optional_extra(src, present).0,
            source_over(read_optional_extra(src, present).1, data),
        ),
        read_optional_text(src, present, field).1.pos <= upto ==> read_optional_text(
            source_over(src, data),
            present,
            field,
        ) == (
            read_optional_text(src, present, field).0,
            source_over(read_optional_text(src, present, field).1, data),
        ),
{
    if present {
        if read_optional_extra(src, present).1.pos <= upto {
            let (len, next) = src.read_le(2);
            if len is Ok {
                lemma_read_exact_local(next, data, upto, len->Ok_0);
            }
            lemma_read_exact_local(src, data, upto, 2);
        }
        if read_optional_text(src, present, field).1.pos <= upto {
            lemma_read_until_local(src, data, upto, 0);
        }
    }
}

/// Reading the fields of a header depends only on the bytes up to where the
/// read ends.
pub proof fn lemma_read_fields_local(src: Input, data: Seq<u8>, upto: nat)
    requires
        src.wf(),
        same_upto(src.data, data, upto),
        read_fields(src).1.pos <= upto,
    ensures
        read_fields(source_over(src, data)) == (
            read_fields(src).0,
            source_over(read_fields(src).1, data),
        ),
{
    let (fixed, s1) = read_fixed(src);
    if fixed is Ok {
        let flags = MemberFlags(fixed->Ok_0[3]);
        lemma_read_optional_forward(s1, flags.has_bit(FEXTRA_OFFSET), Field::Extra);
        let (extra, s2) = read_optional_extra(s1, flags.has_bit(FEXTRA_OFFSET));
        if extra is Ok {
            lemma_read_optional_forward(s2, flags.has_bit(FNAME_OFFSET), Field::Name);
            let (name, s3) = read_optional_text(s2, flags.has_bit(FNAME_OFFSET), Field::Name);
            if name is Ok {
                lemma_read_optional_forward(s3, flags.has_bit(FCOMMENT_OFFSET), Field::Comment);
                lemma_read_optional_local(
                    s3,
                    flags.has_bit(FCOMMENT_OFFSET),
                    Field::Comment,
                    data,
                    upto,
                );
            }
            lemma_read_optional_local(s2, flags.has_bit(FNAME_OFFSET), Field::Name, data, upto);
        }
        lemma_read_optional_local(s1, flags.has_bit(FEXTRA_OFFSET), Field::Extra, data, upto);
    }
    lemma_read_fixed_local(src, data, upto);
}

/// Reading and checking a header depends only on the bytes up to where the
/// read ends.
pub proof fn lemma_parse_header_local(src: Input, data: Seq<u8>, upto: nat)
    requires
        src.wf(),
        same_upto(src.data, data, upto),
        parse_header(src).1.pos <= upto,
    ensures
        parse_header(source_over(src, data)) == (
            parse_header(src).0,
            source_over(parse_header(src).1, data),
        ),
{
    reveal(parse_header);
    lemma_read_fields_forward(src);
    let (fields, next) = read_fields(src);
    if fields is Ok {
        if fields->Ok_0.has_crc {
            lemma_read_exact_local(next, data, upto, 2);
            assert(src.data.subrange(src.pos as int, next.pos as int) =~= data.subrange(
                src.pos as int,
                next.pos as int,
            ));
        }
    }
    lemma_read_fields_local(src, data, upto);
}

/// Reading a trailer depends only on the bytes up to where the read ends.
pub proof fn lemma_read_trailer_local(src: Input, data: Seq<u8>, upto: nat)
    requires
        src.wf(),
        same_upto(src.data, data, upto),
        read_trailer(src).1.pos <= upto,
    ensures
        read_trailer(source_over(src, data)) == (
            read_trailer(src).0,
            source_over(read_trailer(src).1, data),
        ),
{
    let (crc32, next) = src.read_le(4);
    if crc32 is Ok {
        lemma_read_exact_local(next, data, upto, 4);
    }
    lemma_read_exact_local(src, data, upto, 4);
}

/// Decoding the header and the blocks of a member depends only on the bytes
/// up to where the decoder stops.
pub proof fn lemma_member_data_local(st: DecoderState, data: Seq<u8>, upto: nat)
    requires
        st.input.src.wf(),
        same_upto(st.input.src.data, data, upto),
        member_data(st).1.input.src.pos <= upto,
    ensures
        member_data(decoder_over(st, data)) == (
            member_data(st).0,
            decoder_over(member_data(st).1, data),
        ),
{
    lemma_parse_header_forward(st.input.src);
    let (header, src) = parse_header(st.input.src);
    lemma_aligned(src);
    if header is Ok {
        let at = DecoderState { input: BitInput::aligned(src), output: st.output };
        lemma_blocks(at, 0);
        lemma_blocks_local(at, data, upto, 0);
    }
    lemma_parse_header_local(st.input.src, data, upto);
}

/// Decoding a member depends only on the bytes up to where the decoder stops.
pub proof fn lemma_member_local(st: DecoderState, data: Seq<u8>, upto: nat)
    requires
        st.input.src.wf(),
        same_upto(st.input.src.data, data, upto),
        member(st).1.input.src.pos <= upto,
    ensures
        member(decoder_over(st, data)) == (member(st).0, decoder_over(member(st).1, data)),
{
    lemma_member(st);
    let (done, after) = member_data(st);
    if done is Ok {
        lemma_read_trailer_forward(after.input.src);
        lemma_read_trailer_local(after.input.src, data, upto);
    }
    lemma_member_data_local(st, data, upto);
}

/// Changing the CRC-32 in the trailer of the last member of a stream that
/// decodes turns the result into a trailer mismatch.
pub proof fn lemma_corrupted_final_crc_from(st: DecoderState, data: Seq<u8>)
    requires
        st.input.src.wf(),
        st.input.src.remaining() > 0,
        members(st).0 is Ok,
        same_upto(st.input.src.data, data, (data.len() - 8) as nat),
        le_value(data.subrange(data.len() - 8, data.len() - 4)) != le_value(
            st.input.src.data.subrange(data.len() - 8, data.len() - 4),
        ),
    ensures
        members(decoder_over(st, data)).0 == Err::<(), DecodeError>(
            error(ErrorKind::TrailerMismatch, Field::Trailer),
        ),
    decreases st.input.src.remaining(),
{
    let len = data.len();
    let orig = st.input.src.data;
    let other = decoder_over(st, data);
    lemma_member(st);
    let (done, mid) = member_data(st);
    let (r, after) = member(st);
    assert(r is Ok);
    lemma_read_trailer_forward(mid.input.src);
    if after.input.src.remaining() == 0 {
        assert(mid.input.src.pos == len - 8);
        lemma_member_data_local(st, data, (len - 8) as nat);
        let mid_src = source_over(mid.input.src, data);
        assert(mid.input.src.peek(4) =~= orig.subrange(len - 8, len - 4));
        assert(mid_src.peek(4) =~= data.subrange(len - 8, len - 4));
        lemma_le_value_bound(mid.input.src.peek(4));
        lemma_le_value_bound(mid_src.peek(4));
        vstd::arithmetic::power2::lemma2_to64();
        assert(read_trailer(mid_src).0 is Ok);
        assert(read_trailer(mid_src).0->Ok_0.0 != mid.output.crc32());
        lemma_corrupted_crc(other);
    } else {
        assert(members(st) == members(after));
        lemma_member(after);
        lemma_member_local(st, data, (len - 8) as nat);
        lemma_corrupted_final_crc_from(after, data);
        assert(members(other) == members(decoder_over(after, data)));
    }
}

/// Corrupting the final CRC-32 of a stream that decompresses makes it fail
/// with a trailer mismatch: whatever `corrupted` holds in place of the
/// CRC-32 of the last trailer, and of the size after it, as long as the
/// CRC-32 differs and all before it is as in `input`.
pub proof fn lemma_corrupted_final_crc(input: Seq<u8>, corrupted: Seq<u8>, sink: Output)
    requires
        input.len() > 0,
        gzip_stream(input, sink).0 is Ok,
        same_upto(input, corrupted, (input.len() - 8) as nat),
        le_value(corrupted.subrange(input.len() - 8, input.len() - 4)) != le_value(
            input.subrange(input.len() - 8, input.len() - 4),
        ),
    ensures
        gzip_stream(corrupted, sink).0 == Err::<(), DecodeError>(
            error(ErrorKind::TrailerMismatch, Field::Trailer),
        ),
{
    let start = DecoderState {
        input: BitInput::aligned(Input { data: input, pos: 0 }),
        output: WriterState { sink, member: Seq::empty() },
    };
    lemma_corrupted_final_crc_from(start, corrupted);
}

} // verus!
