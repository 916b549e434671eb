//! The DEFLATE decoder: one block per call, from the bit reader to the
//! tracking writer.

use vstd::prelude::*;
use crate::bit_reader::{lemma_read_bits, BitInput, BitReader, BitSequence};
use crate::error::{
    at_symbol, error, index_of, next_index, place, tag_symbol, DecodeError, ErrorKind, Field,
};
use crate::huffman_coding::{
    decode_dynamic_tree, decode_fixed_trees, dynamic_codes, fixed_codes,
    lemma_dynamic_codes, lemma_read_extra, lemma_read_symbol_from, read_extra, read_extra_bits,
    read_symbol, DistanceToken, HuffmanCoding, LitLenToken, MAX_BITS,
};
use crate::source::ByteSource;
use crate::tracking_writer::{TrackingWriter, WriterState};

verus! {

/// The three bits in front of every block.
#[derive(Debug)]
pub struct BlockHeader {
    pub is_final: bool,
    pub compression_type: CompressionType,
}

/// How the data of a block are encoded.
#[derive(Debug)]
pub enum CompressionType {
    Uncompressed,
    FixedTree,
    DynamicTree,
    Reserved,
}

/// The compression type that the two bits after the first of a block say.
pub open spec fn compression_type_of(btype: u16) -> CompressionType {
    if btype == 0 {
        CompressionType::Uncompressed
    } else if btype == 1 {
        CompressionType::FixedTree
    } else if btype == 2 {
        CompressionType::DynamicTree
    } else {
        CompressionType::Reserved
    }
}

/// What a decoder stands for: its bit reader and its tracking writer.
pub struct DecoderState {
    pub input: BitInput,
    pub output: WriterState,
}

impl DecoderState {
    /// Decodes tokens up to the end-of-block symbol, after `index` symbols of
    /// the block: a literal is written; a length, with the distance that
    /// follows it, is written as a back-reference. A failure carries the
    /// index of the symbol that it was met in.
    pub open spec fn decode_tokens(
        self,
        lit_len: Map<BitSequence, LitLenToken>,
        distance: Map<BitSequence, DistanceToken>,
        index: nat,
    ) -> (Result<(), DecodeError>, DecoderState)
        decreases self.input.remaining_bits(),
        when self.input.wf()
    {
        match read_symbol(lit_len, self.input) {
            (Err(e), input) => (Err(at_symbol(e, index)), DecoderState { input, output: self.output }),
            (Ok(LitLenToken::EndOfBlock), input) => (
                Ok(()),
                DecoderState { input, output: self.output },
            ),
            (Ok(LitLenToken::Literal(byte)), input) => match self.output.write_all(seq![byte]) {
                (Err(e), output) => (Err(at_symbol(e, index)), DecoderState { input, output }),
                (Ok(_), output) => {
                    proof {
                        lemma_read_symbol_from(
                            lit_len,
                            self.input,
                            BitSequence { bits: 0, len: 0 },
                            MAX_BITS as nat,
                        );
                    }
                    (DecoderState { input, output }).decode_tokens(lit_len, distance, index + 1)
                },
            },
            (Ok(LitLenToken::Length { base, extra_bits }), input) => match read_extra(
                input,
                base,
                extra_bits,
                Field::Symbol,
            ) {
                (Err(e), after) => (Err(at_symbol(e, index)), DecoderState { input: after, output: self.output }),
                (Ok(len), after) => match read_symbol(distance, after) {
                    (Err(e), then) => (Err(at_symbol(e, index)), DecoderState { input: then, output: self.output }),
                    (Ok(token), then) => match read_extra(
                        then,
                        token.base,
                        token.extra_bits,
                        Field::Symbol,
                    ) {
                        (Err(e), last) => (
                            Err(at_symbol(e, index)),
                            DecoderState { input: last, output: self.output },
                        ),
                        (Ok(dist), last) => match self.output.write_previous(dist, len) {
                            (Err(e), output) => (Err(at_symbol(e, index)), DecoderState { input: last, output }),
                            (Ok(_), output) => {
                                proof {
                                    let empty = BitSequence { bits: 0, len: 0 };
                                    lemma_read_symbol_from(
                                        lit_len,
                                        self.input,
                                        empty,
                                        MAX_BITS as nat,
                                    );
                                    lemma_read_extra(input, base, extra_bits, Field::Symbol);
                                    lemma_read_symbol_from(distance, after, empty, MAX_BITS as nat);
                                    lemma_read_extra(
                                        then,
                                        token.base,
                                        token.extra_bits,
                                        Field::Symbol,
                                    );
                                }
                                (DecoderState { input: last, output }).decode_tokens(
                                    lit_len,
                                    distance,
                                    index + 1,
                                )
                            },
                        },
                    },
                },
            },
        }
    }

    /// Decodes a stored block: from the next byte boundary, a length of two
    /// bytes, its one's complement, and that many bytes, which are written
    /// as they are.
    pub open spec fn stored_block(self) -> (Result<(), DecodeError>, DecoderState) {
        match self.input.src.read_le(2) {
            (Err(e), src) => (
                Err(error(e.kind, Field::StoredBlock)),
                DecoderState { input: BitInput::aligned(src), output: self.output },
            ),
            (Ok(len), src) => match src.read_le(2) {
                (Err(e), src) => (
                    Err(error(e.kind, Field::StoredBlock)),
                    DecoderState { input: BitInput::aligned(src), output: self.output },
                ),
                (Ok(nlen), src) => if len + nlen != 0xffff {
                    (
                        Err(error(ErrorKind::MalformedStoredBlock, Field::StoredBlock)),
                        DecoderState { input: BitInput::aligned(src), output: self.output },
                    )
                } else {
                    match src.read_exact(len) {
                        (Err(e), src) => (
                            Err(error(e.kind, Field::StoredBlock)),
                            DecoderState { input: BitInput::aligned(src), output: self.output },
                        ),
                        (Ok(bytes), src) => match self.output.write_all(bytes) {
                            (r, output) => (
                                r,
                                DecoderState { input: BitInput::aligned(src), output },
                            ),
                        },
                    }
                },
            },
        }
    }

    /// Decodes the data of a block of the given type.
    pub open spec fn block_data(self, compression_type: CompressionType) -> (
        Result<(), DecodeError>,
        DecoderState,
    ) {
        match compression_type {
            CompressionType::Uncompressed => self.stored_block(),
            CompressionType::FixedTree => match fixed_codes() {
                Err(e) => (Err(e), self),
                Ok((lit_len, distance)) => self.decode_tokens(lit_len, distance, 0),
            },
            CompressionType::DynamicTree => match dynamic_codes(self.input) {
                (Err(e), input) => (Err(e), DecoderState { input, output: self.output }),
                (Ok((lit_len, distance)), input) => (DecoderState {
                    input,
                    output: self.output,
                }).decode_tokens(lit_len, distance, 0),
            },
            CompressionType::Reserved => (
                Err(error(ErrorKind::ReservedBlockType, Field::BlockHeader)),
                self,
            ),
        }
    }

    /// Decodes the data of a block with the given header; tells whether the
    /// block is the last.
    pub open spec fn read_data(self, header: BlockHeader) -> (
        Result<bool, DecodeError>,
        DecoderState,
    ) {
        match self.block_data(header.compression_type) {
            (Ok(_), after) => (Ok(header.is_final), after),
            (Err(e), after) => (Err(e), after),
        }
    }

    /// Decodes one block: one bit that tells whether it is the last, two
    /// bits for its type, then its data.
    #[verifier::opaque]
    pub open spec fn next_block(self) -> (Result<bool, DecodeError>, DecoderState) {
        match self.input.read_bits(1) {
            (Err(e), input) => (
                Err(error(e.kind, Field::BlockHeader)),
                DecoderState { input, output: self.output },
            ),
            (Ok(bfinal), input) => match input.read_bits(2) {
                (Err(e), input) => (
                    Err(error(e.kind, Field::BlockHeader)),
                    DecoderState { input, output: self.output },
                ),
                (Ok(btype), input) => (DecoderState { input, output: self.output }).read_data(
                    BlockHeader {
                        is_final: bfinal.bits != 0,
                        compression_type: compression_type_of(btype.bits),
                    },
                ),
            },
        }
    }

    /// Compares the checksum and the size of a trailer with the running
    /// totals.
    pub open spec fn check_trailer(self, crc32: u32, isize: u32) -> Result<(), DecodeError> {
        if crc32 != self.output.crc32() || isize != self.output.byte_count() {
            Err(error(ErrorKind::TrailerMismatch, Field::Trailer))
        } else {
            Ok(())
        }
    }
}

/// Decoding tokens keeps the reader well formed and never gives bits back.
pub proof fn lemma_decode_tokens(
    st: DecoderState,
    lit_len: Map<BitSequence, LitLenToken>,
    distance: Map<BitSequence, DistanceToken>,
    index: nat,
)
    requires
        st.input.wf(),
    ensures
        st.decode_tokens(lit_len, distance, index).1.input.wf(),
        st.decode_tokens(lit_len, distance, index).1.input.src.data == st.input.src.data,
        st.decode_tokens(lit_len, distance, index).1.input.src.pos >= st.input.src.pos,
        st.decode_tokens(lit_len, distance, index).1.input.remaining_bits() <= st.input.remaining_bits(),
    decreases st.input.remaining_bits(),
{
    let empty = BitSequence { bits: 0, len: 0 };
    lemma_read_symbol_from(lit_len, st.input, empty, MAX_BITS as nat);
    match read_symbol(lit_len, st.input) {
        (Err(e), input) => {},
        (Ok(LitLenToken::EndOfBlock), input) => {},
        (Ok(LitLenToken::Literal(byte)), input) => {
            match st.output.write_all(seq![byte]) {
                (Err(e), output) => {},
                (Ok(_), output) => {
                    lemma_decode_tokens(DecoderState { input, output }, lit_len, distance, index + 1);
                },
            }
        },
        (Ok(LitLenToken::Length { base, extra_bits }), input) => {
            lemma_read_extra(input, base, extra_bits, Field::Symbol);
            match read_extra(input, base, extra_bits, Field::Symbol) {
                (Err(e), after) => {},
                (Ok(len), after) => {
                    lemma_read_symbol_from(distance, after, empty, MAX_BITS as nat);
                    match read_symbol(distance, after) {
                        (Err(e), then) => {},
                        (Ok(token), then) => {
                            lemma_read_extra(then, token.base, token.extra_bits, Field::Symbol);
                            match read_extra(then, token.base, token.extra_bits, Field::Symbol) {
                                (Err(e), last) => {},
                                (Ok(dist), last) => {
                                    match st.output.write_previous(dist, len) {
                                        (Err(e), output) => {},
                                        (Ok(_), output) => {
                                            lemma_decode_tokens(
                                                DecoderState { input: last, output },
                                                lit_len,
                                                distance,
                                                index + 1,
                                            );
                                        },
                                    }
                                },
                            }
                        },
                    }
                },
            }
        },
    }
}

/// Decoding a block keeps the reader well formed; a block that is decoded
/// takes at least its three header bits.
pub proof fn lemma_next_block(st: DecoderState)
    requires
        st.input.wf(),
    ensures
        st.next_block().1.input.wf(),
        st.next_block().1.input.src.data == st.input.src.data,
        st.next_block().1.input.src.pos >= st.input.src.pos,
        st.next_block().1.input.remaining_bits() <= st.input.remaining_bits(),
        st.next_block().0 is Ok ==> st.next_block().1.input.remaining_bits() + 3
            <= st.input.remaining_bits(),
{
    reveal(DecoderState::next_block);
    lemma_read_bits(st.input, 1);
    let (bfinal, s1) = st.input.read_bits(1);
    if bfinal is Ok {
        lemma_read_bits(s1, 2);
        let (btype, s2) = s1.read_bits(2);
        if btype is Ok {
            let at = DecoderState { input: s2, output: st.output };
            lemma_block_data(at, compression_type_of(btype->Ok_0.bits));
        }
    }
}

/// Decoding the data of a block keeps the reader well formed and never
/// gives bits back.
pub proof fn lemma_block_data(st: DecoderState, compression_type: CompressionType)
    requires
        st.input.wf(),
    ensures
        st.block_data(compression_type).1.input.wf(),
        st.block_data(compression_type).1.input.src.data == st.input.src.data,
        st.block_data(compression_type).1.input.src.pos >= st.input.src.pos,
        st.block_data(compression_type).1.input.remaining_bits() <= st.input.remaining_bits(),
{
    vstd::arithmetic::power2::lemma2_to64();
    match compression_type {
        CompressionType::Uncompressed => {},
        CompressionType::FixedTree => {
            match fixed_codes() {
                Err(e) => {},
                Ok((lit_len, distance)) => {
                    lemma_decode_tokens(st, lit_len, distance, 0);
                },
            }
        },
        CompressionType::DynamicTree => {
            lemma_dynamic_codes(st.input);
            match dynamic_codes(st.input) {
                (Err(e), input) => {},
                (Ok((lit_len, distance)), input) => {
                    lemma_decode_tokens(
                        DecoderState { input, output: st.output },
                        lit_len,
                        distance,
                        0,
                    );
                },
            }
        },
        CompressionType::Reserved => {},
    }
}

/// A decoder of DEFLATE blocks.
pub struct DeflateReader<'a, 'b> {
    bit_reader: BitReader<'a>,
    writer: TrackingWriter<'b>,
}

impl<'a, 'b> DeflateReader<'a, 'b> {
    /// The bit reader that the decoder reads from.
    pub closed spec fn reader(&self) -> BitReader<'a> {
        self.bit_reader
    }

    /// The tracking writer that the decoder writes to.
    pub closed spec fn tracker(&self) -> TrackingWriter<'b> {
        self.writer
    }

    pub open spec fn view(&self) -> DecoderState {
        DecoderState { input: self.reader()@, output: self.tracker()@ }
    }

    /// The reader and the writer are well formed.
    pub open spec fn wf(&self) -> bool {
        self.reader().wf() && self.tracker().wf()
    }

    /// A decoder that reads from `bit_reader` and writes to `writer`.
    pub fn new(bit_reader: BitReader<'a>, writer: TrackingWriter<'b>) -> (d: Self)
        ensures
            d.reader() == bit_reader,
            d.tracker() == writer,
    {
        Self { bit_reader, writer }
    }

    /// Decodes the next block; tells whether it was the last.
    pub fn next_block(&mut self) -> (r: Result<bool, DecodeError>)
        requires
            old(self).wf(),
        ensures
            final(self).wf(),
            (r, final(self)@) == old(self)@.next_block(),
    {
        proof {
            reveal(DecoderState::next_block);
        }
        let bfinal: u16 = place(self.bit_reader.read_bits(1), Field::BlockHeader)?.bits();
        let btype: u16 = place(self.bit_reader.read_bits(2), Field::BlockHeader)?.bits();
        let cm = if btype == 0 {
            CompressionType::Uncompressed
        } else if btype == 1 {
            CompressionType::FixedTree
        } else if btype == 2 {
            CompressionType::DynamicTree
        } else {
            CompressionType::Reserved
        };
        let block_header = BlockHeader { is_final: bfinal != 0, compression_type: cm };
        self.read_data(block_header)
    }

    /// Decodes the data of a block whose header has been read.
    pub fn read_data(&mut self, block_header: BlockHeader) -> (r: Result<bool, DecodeError>)
        requires
            old(self).wf(),
        ensures
            final(self).wf(),
            (r, final(self)@) == old(self)@.read_data(block_header),
    {
        match block_header.compression_type {
            CompressionType::Uncompressed => {
                self.copy_stored()?;
                Ok(block_header.is_final)
            },
            CompressionType::FixedTree => {
                let (letlentoken, distancetoken) = decode_fixed_trees()?;
                self.decode_by_tokens(letlentoken, distancetoken)?;
                Ok(block_header.is_final)
            },
            CompressionType::DynamicTree => {
                let (letlentoken, distancetoken) = decode_dynamic_tree(&mut self.bit_reader)?;
                self.decode_by_tokens(letlentoken, distancetoken)?;
                Ok(block_header.is_final)
            },
            CompressionType::Reserved => {
                Err(DecodeError::new(ErrorKind::ReservedBlockType, Field::BlockHeader))
            },
        }
    }

    /// Copies the bytes of a stored block to the writer.
    pub fn copy_stored(&mut self) -> (r: Result<(), DecodeError>)
        requires
            old(self).wf(),
        ensures
            final(self).wf(),
            (r, final(self)@) == old(self)@.stored_block(),
    {
        proof {
            vstd::arithmetic::power2::lemma2_to64();
        }
        let reader = self.bit_reader.borrow_reader_from_boundary();
        let len: u16 = place(reader.read_u16_le(), Field::StoredBlock)?;
        let nlen: u16 = place(reader.read_u16_le(), Field::StoredBlock)?;
        assert(!nlen == 0xffff - nlen) by (bit_vector);
        if len != !nlen {
            return Err(DecodeError::new(ErrorKind::MalformedStoredBlock, Field::StoredBlock));
        }
        let buffer: Vec<u8> = place(reader.read_exact(len as usize), Field::StoredBlock)?;
        self.writer.write_all(buffer.as_slice())
    }

    /// Decodes tokens with the given codes up to the end of the block. A
    /// failure carries the index of the symbol that it was met in.
    pub fn decode_by_tokens(
        &mut self,
        letlentoken: HuffmanCoding<LitLenToken>,
        distancetoken: HuffmanCoding<DistanceToken>,
    ) -> (r: Result<(), DecodeError>)
        requires
            old(self).wf(),
        ensures
            final(self).wf(),
            (r, final(self)@) == old(self)@.decode_tokens(letlentoken@, distancetoken@, 0),
    {
        let mut index: u64 = 0;
        let ghost mut count: nat = 0;
        loop
            invariant
                self.wf(),
                index == index_of(count),
                self@.decode_tokens(letlentoken@, distancetoken@, count) == old(
                    self,
                )@.decode_tokens(letlentoken@, distancetoken@, 0),
            decreases self@.input.remaining_bits(),
        {
            let ghost before = self@;
            proof {
                lemma_read_symbol_from(
                    letlentoken@,
                    before.input,
                    BitSequence { bits: 0, len: 0 },
                    MAX_BITS as nat,
                );
            }
            match tag_symbol(letlentoken.read_symbol(&mut self.bit_reader), index)? {
                LitLenToken::Literal(symbol) => {
                    tag_symbol(self.writer.write_u8(symbol), index)?;
                },
                LitLenToken::EndOfBlock => {
                    return Ok(());
                },
                LitLenToken::Length { base, extra_bits } => {
                    let ghost s1 = self@.input;
                    let len: u32 = tag_symbol(
                        read_extra_bits(&mut self.bit_reader, base, extra_bits, Field::Symbol),
                        index,
                    )?;
                    let ghost s2 = self@.input;
                    let token = tag_symbol(distancetoken.read_symbol(&mut self.bit_reader), index)?;
                    let ghost s3 = self@.input;
                    let dist: u32 = tag_symbol(
                        read_extra_bits(
                            &mut self.bit_reader,
                            token.base,
                            token.extra_bits,
                            Field::Symbol,
                        ),
                        index,
                    )?;
                    proof {
                        lemma_read_extra(s1, base, extra_bits, Field::Symbol);
                        lemma_read_symbol_from(
                            distancetoken@,
                            s2,
                            BitSequence { bits: 0, len: 0 },
                            MAX_BITS as nat,
                        );
                        lemma_read_extra(s3, token.base, token.extra_bits, Field::Symbol);
                    }
                    tag_symbol(self.writer.write_previous(dist as usize, len as usize), index)?;
                },
            }
            index = next_index(index, Ghost(count));
            proof {
                count = count + 1;
            }
        }
    }

    /// Drops the bits left of the current byte and lends the byte source.
    pub fn get_input(&mut self) -> (r: &mut ByteSource<'a>)
        ensures
            *r == old(self).reader().source(),
            final(self).reader().source() == *final(r),
            final(self).reader().pending() == (BitSequence { bits: 0, len: 0 }),
            final(self).tracker() == old(self).tracker(),
    {
        self.bit_reader.borrow_reader_from_boundary()
    }

    /// Ends a member: the sink is flushed, and the writer starts over for
    /// the next member.
    pub fn output(&mut self)
        ensures
            final(self).reader() == old(self).reader(),
            final(self).tracker().wf(),
            final(self).tracker()@ == old(self).tracker()@.clear(),
    {
        self.writer.flush();
        self.writer.clear();
    }

    /// Compares the checksum and the size of a trailer with the running
    /// totals of the writer.
    pub fn check_crc32_and_isize(&self, crc32: u32, isize: u32) -> (r: Result<(), DecodeError>)
        requires
            self.wf(),
        ensures
            r == self@.check_trailer(crc32, isize),
    {
        if crc32 != self.writer.crc32() {
            return Err(DecodeError::new(ErrorKind::TrailerMismatch, Field::Trailer));
        }
        if isize != self.writer.byte_count() {
            return Err(DecodeError::new(ErrorKind::TrailerMismatch, Field::Trailer));
        }
        Ok(())
    }

    /// Gives up the decoder for its writer.
    pub fn into_writer(self) -> (w: TrackingWriter<'b>)
        ensures
            w == self.tracker(),
    {
        self.writer
    }
}

} // verus!
