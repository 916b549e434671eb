//! The error type shared by every decoding step.

use vstd::prelude::*;

verus! {

/// What went wrong.
#[derive(Clone, Copy, Debug, PartialEq, Eq, Structural)]
pub enum ErrorKind {
    /// The input ended in the middle of a field, a block, a symbol or a trailer.
    UnexpectedEof,
    /// A member does not start with the bytes `0x1f 0x8b`.
    BadMagic,
    /// The compression method of a member is not DEFLATE.
    UnsupportedMethod,
    /// The header checksum is present and differs from the computed one.
    HeaderCrcMismatch,
    /// A DEFLATE block announces the reserved block type.
    ReservedBlockType,
    /// The length of a stored block and its complement disagree.
    MalformedStoredBlock,
    /// A code length above 15, code lengths that the table cannot hold (more
    /// than 65536 of them, or a code word of more than 16 bits), a code
    /// length for a distance code without symbol, a repeat with nothing to
    /// repeat or running past the alphabet, or bits that match no code
    /// word.
    MalformedHuffmanTable,
    /// A back-reference reaches further back than the window holds.
    BadBackReference,
    /// The checksum or the size in the trailer differs from the running totals.
    TrailerMismatch,
    /// A name or a comment is not valid UTF-8.
    InvalidUtf8,
    /// The sink took none of the bytes offered to it.
    WriteZero,
}

/// Where in the stream the failure was met.
#[derive(Clone, Copy, Debug, PartialEq, Eq, Structural)]
pub enum Field {
    /// A read that no caller has placed yet.
    Stream,
    Magic,
    Method,
    Flags,
    ModificationTime,
    ExtraFlags,
    Os,
    Extra,
    Name,
    Comment,
    HeaderCrc,
    BlockHeader,
    StoredBlock,
    HuffmanTable,
    Symbol,
    Output,
    Trailer,
}

/// A failed decoding step: the kind of failure and the field it was met in.
#[derive(Clone, Copy, Debug, PartialEq, Eq, Structural)]
pub struct DecodeError {
    pub kind: ErrorKind,
    pub field: Field,
    /// The index of the block of its member that the failure was met in,
    /// counted from zero and modulo 2^64; zero outside of blocks.
    pub block: u64,
    /// The index of the symbol of its block that the failure was met in,
    /// counted from zero and modulo 2^64; zero outside of the symbols of a
    /// block.
    pub symbol: u64,
}

/// The error of the given kind, met in the given field, outside of any
/// block.
pub open spec fn error(kind: ErrorKind, field: Field) -> DecodeError {
    DecodeError { kind, field, block: 0, symbol: 0 }
}

/// The index that an error carries for the block or symbol that comes
/// after `count` others.
pub open spec fn index_of(count: nat) -> u64 {
    (count % 0x1_0000_0000_0000_0000) as u64
}

/// The error `e`, met in the block after `count` blocks of the member.
pub open spec fn in_block(e: DecodeError, count: nat) -> DecodeError {
    DecodeError { kind: e.kind, field: e.field, block: index_of(count), symbol: e.symbol }
}

/// The error `e`, met in the symbol after `count` symbols of the block.
pub open spec fn at_symbol(e: DecodeError, count: nat) -> DecodeError {
    DecodeError { kind: e.kind, field: e.field, block: e.block, symbol: index_of(count) }
}

/// The result `r`, with the field of its error, if it is one, replaced by `field`.
pub open spec fn placed<T>(r: Result<T, DecodeError>, field: Field) -> Result<T, DecodeError> {
    match r {
        Ok(v) => Ok(v),
        Err(e) => Err(error(e.kind, field)),
    }
}

impl DecodeError {
    pub fn new(kind: ErrorKind, field: Field) -> (e: Self)
        ensures
            e == error(kind, field),
    {
        DecodeError { kind, field, block: 0, symbol: 0 }
    }

    pub fn kind(&self) -> (k: ErrorKind)
        ensures
            k == self.kind,
    {
        self.kind
    }

    pub fn field(&self) -> (f: Field)
        ensures
            f == self.field,
    {
        self.field
    }

    /// The index of the block that the failure was met in.
    pub fn block(&self) -> (b: u64)
        ensures
            b == self.block,
    {
        self.block
    }

    /// The index of the symbol that the failure was met in.
    pub fn symbol(&self) -> (s: u64)
        ensures
            s == self.symbol,
    {
        self.symbol
    }

    /// A failure of the same kind, attributed to `field`, outside of any
    /// block.
    pub fn at(self, field: Field) -> (e: Self)
        ensures
            e == error(self.kind, field),
    {
        DecodeError { kind: self.kind, field, block: 0, symbol: 0 }
    }

    /// The same failure, met in the block of the given index.
    pub fn in_block(self, block: u64) -> (e: Self)
        ensures
            e == (DecodeError { kind: self.kind, field: self.field, block, symbol: self.symbol }),
    {
        DecodeError { kind: self.kind, field: self.field, block, symbol: self.symbol }
    }

    /// The same failure, met in the symbol of the given index.
    pub fn at_symbol(self, symbol: u64) -> (e: Self)
        ensures
            e == (DecodeError { kind: self.kind, field: self.field, block: self.block, symbol }),
    {
        DecodeError { kind: self.kind, field: self.field, block: self.block, symbol }
    }

    /// A short description of the kind of failure.
    pub fn message(&self) -> (m: &'static str)
        ensures
            m@ == kind_message(self.kind),
    {
        match self.kind {
            ErrorKind::UnexpectedEof => "truncated input",
            ErrorKind::BadMagic => "bad magic",
            ErrorKind::UnsupportedMethod => "unsupported compression method",
            ErrorKind::HeaderCrcMismatch => "header crc mismatch",
            ErrorKind::ReservedBlockType => "reserved block type",
            ErrorKind::MalformedStoredBlock => "malformed stored block",
            ErrorKind::MalformedHuffmanTable => "malformed huffman table",
            ErrorKind::BadBackReference => "bad back-reference",
            ErrorKind::TrailerMismatch => "trailer mismatch",
            ErrorKind::InvalidUtf8 => "invalid utf-8 in name or comment",
            ErrorKind::WriteZero => "sink accepts no more bytes",
        }
    }
}

/// The text that `DecodeError::message` gives for each kind.
pub open spec fn kind_message(kind: ErrorKind) -> Seq<char> {
    match kind {
        ErrorKind::UnexpectedEof => "truncated input"@,
        ErrorKind::BadMagic => "bad magic"@,
        ErrorKind::UnsupportedMethod => "unsupported compression method"@,
        ErrorKind::HeaderCrcMismatch => "header crc mismatch"@,
        ErrorKind::ReservedBlockType => "reserved block type"@,
        ErrorKind::MalformedStoredBlock => "malformed stored block"@,
        ErrorKind::MalformedHuffmanTable => "malformed huffman table"@,
        ErrorKind::BadBackReference => "bad back-reference"@,
        ErrorKind::TrailerMismatch => "trailer mismatch"@,
        ErrorKind::InvalidUtf8 => "invalid utf-8 in name or comment"@,
        ErrorKind::WriteZero => "sink accepts no more bytes"@,
    }
}

/// Attributes the error of `r`, if it is one, to `field`.
pub fn place<T>(r: Result<T, DecodeError>, field: Field) -> (out: Result<T, DecodeError>)
    ensures
        out == placed(r, field),
{
    match r {
        Ok(v) => Ok(v),
        Err(e) => Err(e.at(field)),
    }
}

/// Gives the error of `r`, if it is one, the index of the symbol that it was
/// met in.
pub fn tag_symbol<T>(r: Result<T, DecodeError>, symbol: u64) -> (out: Result<T, DecodeError>)
    ensures
        out == (match r {
            Ok(v) => Ok(v),
            Err(e) => Err(
                DecodeError { kind: e.kind, field: e.field, block: e.block, symbol },
            ),
        }),
{
    match r {
        Ok(v) => Ok(v),
        Err(e) => Err(e.at_symbol(symbol)),
    }
}

/// Gives the error of `r`, if it is one, the index of the block that it was
/// met in.
pub fn tag_block<T>(r: Result<T, DecodeError>, block: u64) -> (out: Result<T, DecodeError>)
    ensures
        out == (match r {
            Ok(v) => Ok(v),
            Err(e) => Err(
                DecodeError { kind: e.kind, field: e.field, block, symbol: e.symbol },
            ),
        }),
{
    match r {
        Ok(v) => Ok(v),
        Err(e) => Err(e.in_block(block)),
    }
}

/// The index after `index`, which is that of the block or symbol after
/// `count` others.
pub(crate) fn next_index(index: u64, Ghost(count): Ghost<nat>) -> (next: u64)
    requires
        index == index_of(count),
    ensures
        next == index_of(count + 1),
{
    if index == u64::MAX {
        0
    } else {
        index + 1
    }
}

} // verus!
