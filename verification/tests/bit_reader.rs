use gzip_decoder::bit_reader::{BitReader, BitSequence};
use gzip_decoder::error::{DecodeError, ErrorKind, Field};
use gzip_decoder::source::ByteSource;

#[test]
fn read_bits() -> Result<(), DecodeError> {
    let data: &[u8] = &[0b01100011, 0b11011011, 0b10101111];
    let mut reader = BitReader::new(ByteSource::new(data));
    assert_eq!(reader.read_bits(1)?, BitSequence::new(0b1, 1));
    assert_eq!(reader.read_bits(2)?, BitSequence::new(0b01, 2));
    assert_eq!(reader.read_bits(3)?, BitSequence::new(0b100, 3));
    assert_eq!(reader.read_bits(4)?, BitSequence::new(0b1101, 4));
    assert_eq!(reader.read_bits(5)?, BitSequence::new(0b10110, 5));
    assert_eq!(reader.read_bits(8)?, BitSequence::new(0b01011111, 8));
    assert_eq!(reader.read_bits(2).unwrap_err().kind(), ErrorKind::UnexpectedEof);
    Ok(())
}

#[test]
fn borrow_reader_from_boundary() -> Result<(), DecodeError> {
    let data: &[u8] = &[0b01100011, 0b11011011, 0b10101111];
    let mut reader = BitReader::new(ByteSource::new(data));
    assert_eq!(reader.read_bits(3)?, BitSequence::new(0b011, 3));
    assert_eq!(reader.borrow_reader_from_boundary().read_u8()?, 0b11011011);
    assert_eq!(reader.read_bits(8)?, BitSequence::new(0b10101111, 8));
    Ok(())
}

#[test]
fn bit_sequence_accessors_and_equality() {
    let seq = BitSequence::new(0b101, 3);
    assert_eq!(seq.bits(), 0b101);
    assert_eq!(seq.len(), 3);
    assert_ne!(BitSequence::new(0b01, 2), BitSequence::new(0b001, 3));
}

#[test]
fn concat_shifts_left_operand() {
    let joined = BitSequence::new(0b10, 2).concat(BitSequence::new(0b011, 3));
    assert_eq!(joined, BitSequence::new(0b10011, 5));
    let empty = BitSequence::new(0, 0);
    assert_eq!(empty.concat(BitSequence::new(0xffff, 16)), BitSequence::new(0xffff, 16));
    assert_eq!(BitSequence::new(0xffff, 16).concat(empty), BitSequence::new(0xffff, 16));
    assert_eq!(BitSequence::new(0x7f, 8).concat(BitSequence::new(0x01, 8)), BitSequence::new(0x7f01, 16));
}

#[test]
fn concat_loses_the_bits_shifted_out() {
    // Bits beyond the length are shifted as they are.
    assert_eq!(BitSequence::new(0b111, 1).concat(BitSequence::new(0b1, 2)), BitSequence::new(0b11101, 3));
    // What leaves the 16 bits is lost.
    assert_eq!(BitSequence::new(0x8001, 8).concat(BitSequence::new(0x2, 4)), BitSequence::new(0x0012, 12));
    assert_eq!(BitSequence::new(0xffff, 0).concat(BitSequence::new(0x1234, 16)), BitSequence::new(0x1234, 16));
    assert_eq!(BitSequence::new(0x0fff, 12).concat(BitSequence::new(0xf, 4)), BitSequence::new(0xffff, 16));
}

#[test]
fn read_bits_of_width_zero_and_sixteen() -> Result<(), DecodeError> {
    let data: &[u8] = &[0x34, 0x12, 0xff];
    let mut reader = BitReader::new(ByteSource::new(data));
    assert_eq!(reader.read_bits(0)?, BitSequence::new(0, 0));
    assert_eq!(reader.read_bits(16)?, BitSequence::new(0x1234, 16));
    assert_eq!(reader.read_bits(0)?, BitSequence::new(0, 0));
    assert_eq!(reader.read_bits(4)?, BitSequence::new(0xf, 4));
    Ok(())
}

#[test]
fn read_bits_spans_three_bytes() -> Result<(), DecodeError> {
    let data: &[u8] = &[0b1010_0101, 0b1100_0011, 0b0000_1111];
    let mut reader = BitReader::new(ByteSource::new(data));
    assert_eq!(reader.read_bits(7)?, BitSequence::new(0b010_0101, 7));
    assert_eq!(reader.read_bits(16)?, BitSequence::new(0b000_1111_1100_0011_1, 16));
    assert_eq!(reader.read_bits(1)?, BitSequence::new(0, 1));
    assert!(reader.read_bits(1).is_err());
    Ok(())
}

#[test]
fn failed_read_keeps_buffered_bits_and_exhausts_source() -> Result<(), DecodeError> {
    let data: &[u8] = &[0b1110_0101, 0x77];
    let mut reader = BitReader::new(ByteSource::new(data));
    assert_eq!(reader.read_bits(5)?, BitSequence::new(0b00101, 5));
    let err = reader.read_bits(16).unwrap_err();
    assert_eq!(err, DecodeError::new(ErrorKind::UnexpectedEof, Field::Stream));
    assert_eq!(reader.read_bits(3)?, BitSequence::new(0b111, 3));
    assert!(reader.borrow_reader_from_boundary().is_empty());
    Ok(())
}

#[test]
fn realignment_discards_rest_of_byte() -> Result<(), DecodeError> {
    let data: &[u8] = &[0xff, 0x01, 0x02];
    let mut reader = BitReader::new(ByteSource::new(data));
    reader.read_bits(1)?;
    let source = reader.borrow_reader_from_boundary();
    assert_eq!(source.remaining(), 2);
    assert_eq!(source.read_u8()?, 0x01);
    assert_eq!(reader.read_bits(8)?, BitSequence::new(0x02, 8));
    Ok(())
}

#[test]
fn byte_source_reads() -> Result<(), DecodeError> {
    let data: &[u8] = &[0x34, 0x12, 0x78, 0x56, 0x34, 0x12, b'a', b'b', 0, b'c', 9, 9];
    let mut source = ByteSource::new(data);
    assert_eq!(source.position(), 0);
    assert_eq!(source.read_u16_le()?, 0x1234);
    assert_eq!(source.read_u32_le()?, 0x12345678);
    assert_eq!(source.consumed_since(2), &[0x78, 0x56, 0x34, 0x12]);
    assert_eq!(source.read_until(0), vec![b'a', b'b', 0]);
    assert_eq!(source.read_exact(1)?, vec![b'c']);
    assert_eq!(source.remaining(), 2);
    assert_eq!(source.read_exact(3).unwrap_err().kind(), ErrorKind::UnexpectedEof);
    assert!(source.is_empty());
    assert_eq!(source.read_u8().unwrap_err(), DecodeError::new(ErrorKind::UnexpectedEof, Field::Stream));
    Ok(())
}

#[test]
fn byte_source_read_until_without_delimiter() {
    let data: &[u8] = &[1, 2, 3];
    let mut source = ByteSource::new(data);
    assert_eq!(source.read_until(0), vec![1, 2, 3]);
    assert!(source.is_empty());
    assert_eq!(source.read_until(0), Vec::<u8>::new());
}

#[test]
fn short_integer_reads_fail_and_exhaust() {
    let data: &[u8] = &[1, 2, 3];
    let mut source = ByteSource::new(data);
    assert_eq!(source.read_u32_le().unwrap_err().kind(), ErrorKind::UnexpectedEof);
    assert!(source.is_empty());
    let data: &[u8] = &[1];
    let mut source = ByteSource::new(data);
    assert_eq!(source.read_u16_le().unwrap_err().kind(), ErrorKind::UnexpectedEof);
    assert!(source.is_empty());
}

#[test]
fn two_reads_give_what_one_read_of_all_bits_gives() -> Result<(), DecodeError> {
    let data: &[u8] = &[0b1011_0010, 0b0110_1101, 0b1111_0000, 0b0101_1010, 0x33];
    for skip in 0..8u8 {
        for n in 0..=16u8 {
            for m in 0..=(16 - n) {
                let mut one = BitReader::new(ByteSource::new(data));
                let mut two = BitReader::new(ByteSource::new(data));
                one.read_bits(skip)?;
                two.read_bits(skip)?;
                let first = two.read_bits(n)?;
                let second = two.read_bits(m)?;
                let all = one.read_bits(n + m)?;
                assert_eq!(all.len(), n + m);
                assert_eq!(
                    all.bits() as u32,
                    first.bits() as u32 + ((second.bits() as u32) << n)
                );
                assert_eq!(one.read_bits(5)?, two.read_bits(5)?);
            }
        }
    }
    Ok(())
}
