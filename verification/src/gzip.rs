//! The framing of gzip members: header, flags and trailer.

use vstd::prelude::*;
use vstd::arithmetic::div_mod::{lemma_div_denominator, lemma_fundamental_div_mod_converse};
use vstd::arithmetic::power2::{pow2, lemma2_to64};
use vstd::utf8::{decode_utf8, encode_utf8, valid_utf8};
use crate::checksum::{checksum, crc32_iso_hdlc, Crc32, Crc32Digest};
use crate::error::{error, place, DecodeError, ErrorKind, Field};
use crate::source::{le_value, lemma_le_value_small, ByteSource, Input};

verus! {

/// The first byte of every member.
pub const ID1: u8 = 0x1f;

/// The second byte of every member.
pub const ID2: u8 = 0x8b;

/// The compression method DEFLATE.
pub const CM_DEFLATE: u8 = 8;

/// The bit of the flag byte that marks the data as text.
pub const FTEXT_OFFSET: u8 = 0;

/// The bit of the flag byte that announces a header checksum.
pub const FHCRC_OFFSET: u8 = 1;

/// The bit of the flag byte that announces an extra field.
pub const FEXTRA_OFFSET: u8 = 2;

/// The bit of the flag byte that announces a name.
pub const FNAME_OFFSET: u8 = 3;

/// The bit of the flag byte that announces a comment.
pub const FCOMMENT_OFFSET: u8 = 4;

/// The compression method of a member.
#[derive(Clone, Copy, Debug, PartialEq, Eq, Structural)]
pub enum CompressionMethod {
    Deflate,
    Unknown(u8),
}

/// The method that the byte `value` stands for.
pub open spec fn method_of(value: u8) -> CompressionMethod {
    if value == CM_DEFLATE {
        CompressionMethod::Deflate
    } else {
        CompressionMethod::Unknown(value)
    }
}

/// The byte that stands for `method`.
pub open spec fn method_byte(method: CompressionMethod) -> u8 {
    match method {
        CompressionMethod::Deflate => CM_DEFLATE,
        CompressionMethod::Unknown(x) => x,
    }
}

impl From<u8> for CompressionMethod {
    fn from(value: u8) -> (method: Self) {
        if value == CM_DEFLATE {
            Self::Deflate
        } else {
            Self::Unknown(value)
        }
    }
}

impl vstd::std_specs::convert::FromSpecImpl<u8> for CompressionMethod {
    open spec fn obeys_from_spec() -> bool {
        true
    }

    open spec fn from_spec(value: u8) -> Self {
        method_of(value)
    }
}

impl From<CompressionMethod> for u8 {
    fn from(method: CompressionMethod) -> (value: u8) {
        match method {
            CompressionMethod::Deflate => CM_DEFLATE,
            CompressionMethod::Unknown(x) => x,
        }
    }
}

impl vstd::std_specs::convert::FromSpecImpl<CompressionMethod> for u8 {
    open spec fn obeys_from_spec() -> bool {
        true
    }

    open spec fn from_spec(method: CompressionMethod) -> Self {
        method_byte(method)
    }
}

/// The flag byte of a member header.
#[derive(Debug)]
pub struct MemberFlags(pub u8);

impl MemberFlags {
    /// Whether bit `n` is set.
    pub open spec fn has_bit(self, n: u8) -> bool {
        (self.0 >> n) & 1 != 0
    }

    /// The flags with bit `n` set or cleared, the other bits as they are.
    pub open spec fn with_bit(self, n: u8, value: bool) -> MemberFlags {
        if value {
            MemberFlags(self.0 | (1u8 << n))
        } else {
            MemberFlags(self.0 & !(1u8 << n))
        }
    }

    /// Whether bit `n` is set.
    pub fn bit(&self, n: u8) -> (r: bool)
        requires
            n < 8,
        ensures
            r == self.has_bit(n),
    {
        (self.0 >> n) & 1 != 0
    }

    /// Sets or clears bit `n` and leaves the other bits as they are.
    pub fn set_bit(&mut self, n: u8, value: bool)
        requires
            n < 8,
        ensures
            *final(self) == old(self).with_bit(n, value),
            final(self).has_bit(n) == value,
            forall|m: u8| m < 8 && m != n ==> final(self).has_bit(m) == old(self).has_bit(m),
    {
        let ghost before = self.0;
        if value {
            self.0 = self.0 | (1u8 << n);
        } else {
            self.0 = self.0 & !(1u8 << n);
        }
        proof {
            lemma_with_bit(MemberFlags(before), n, value);
        }
    }

    pub fn is_text(&self) -> (r: bool)
        ensures
            r == self.has_bit(FTEXT_OFFSET),
    {
        self.bit(FTEXT_OFFSET)
    }

    pub fn set_is_text(&mut self, value: bool)
        ensures
            *final(self) == old(self).with_bit(FTEXT_OFFSET, value),
    {
        self.set_bit(FTEXT_OFFSET, value)
    }

    pub fn has_crc(&self) -> (r: bool)
        ensures
            r == self.has_bit(FHCRC_OFFSET),
    {
        self.bit(FHCRC_OFFSET)
    }

    pub fn set_has_crc(&mut self, value: bool)
        ensures
            *final(self) == old(self).with_bit(FHCRC_OFFSET, value),
    {
        self.set_bit(FHCRC_OFFSET, value)
    }

    pub fn has_extra(&self) -> (r: bool)
        ensures
            r == self.has_bit(FEXTRA_OFFSET),
    {
        self.bit(FEXTRA_OFFSET)
    }

    pub fn set_has_extra(&mut self, value: bool)
        ensures
            *final(self) == old(self).with_bit(FEXTRA_OFFSET, value),
    {
        self.set_bit(FEXTRA_OFFSET, value)
    }

    pub fn has_name(&self) -> (r: bool)
        ensures
            r == self.has_bit(FNAME_OFFSET),
    {
        self.bit(FNAME_OFFSET)
    }

    pub fn set_has_name(&mut self, value: bool)
        ensures
            *final(self) == old(self).with_bit(FNAME_OFFSET, value),
    {
        self.set_bit(FNAME_OFFSET, value)
    }

    pub fn has_comment(&self) -> (r: bool)
        ensures
            r == self.has_bit(FCOMMENT_OFFSET),
    {
        self.bit(FCOMMENT_OFFSET)
    }

    pub fn set_has_comment(&mut self, value: bool)
        ensures
            *final(self) == old(self).with_bit(FCOMMENT_OFFSET, value),
    {
        self.set_bit(FCOMMENT_OFFSET, value)
    }
}

/// Setting a bit sets that bit and no other.
pub proof fn lemma_with_bit(flags: MemberFlags, n: u8, value: bool)
    requires
        n < 8,
    ensures
        flags.with_bit(n, value).has_bit(n) == value,
        forall|m: u8| m < 8 && m != n ==> flags.with_bit(n, value).has_bit(m) == flags.has_bit(m),
{
    let x = flags.0;
    assert(((x | (1u8 << n)) >> n) & 1 != 0) by (bit_vector)
        requires
            n < 8,
    ;
    assert(((x & !(1u8 << n)) >> n) & 1 == 0) by (bit_vector)
        requires
            n < 8,
    ;
    assert forall|m: u8| m < 8 && m != n implies flags.with_bit(n, value).has_bit(m)
        == flags.has_bit(m) by {
        assert(((x | (1u8 << n)) >> m) & 1 == (x >> m) & 1) by (bit_vector)
            requires
                n < 8,
                m < 8,
                m != n,
        ;
        assert(((x & !(1u8 << n)) >> m) & 1 == (x >> m) & 1) by (bit_vector)
            requires
                n < 8,
                m < 8,
                m != n,
        ;
    }
}

/// The fields of a member header, as plain values.
pub struct HeaderFields {
    pub compression_method: CompressionMethod,
    pub modification_time: u32,
    pub extra: Option<Seq<u8>>,
    pub name: Option<Seq<char>>,
    pub comment: Option<Seq<char>>,
    pub extra_flags: u8,
    pub os: u8,
    pub has_crc: bool,
    pub is_text: bool,
}

/// The `n` bytes that spell `value` as a little-endian integer.
pub open spec fn le_bytes(value: nat, n: nat) -> Seq<u8> {
    Seq::new(n, |i: int| ((value / pow2((8 * i) as nat)) % 256) as u8)
}

impl HeaderFields {
    /// The flag byte that tells which fields the header has.
    pub open spec fn flags(self) -> MemberFlags {
        MemberFlags(0).with_bit(FTEXT_OFFSET, self.is_text).with_bit(
            FHCRC_OFFSET,
            self.has_crc,
        ).with_bit(FEXTRA_OFFSET, self.extra is Some).with_bit(
            FNAME_OFFSET,
            self.name is Some,
        ).with_bit(FCOMMENT_OFFSET, self.comment is Some)
    }

    /// The ten bytes that every header starts with.
    pub open spec fn fixed_bytes(self) -> Seq<u8> {
        seq![ID1, ID2, method_byte(self.compression_method), self.flags().0] + le_bytes(
            self.modification_time as nat,
            4,
        ) + seq![self.extra_flags, self.os]
    }

    /// The extra field with its length in front, if the header has one. The
    /// length is written modulo 65536.
    pub open spec fn extra_bytes(self) -> Seq<u8> {
        match self.extra {
            Some(extra) => le_bytes(extra.len() % 65536, 2) + extra,
            None => Seq::empty(),
        }
    }

    /// The name and the comment, each with its terminator, as far as the
    /// header has them.
    pub open spec fn text_bytes(self) -> Seq<u8> {
        (match self.name {
            Some(name) => encode_utf8(name) + seq![0u8],
            None => Seq::empty(),
        }) + (match self.comment {
            Some(comment) => encode_utf8(comment) + seq![0u8],
            None => Seq::empty(),
        })
    }

    /// The bytes of the header up to its checksum.
    pub open spec fn bytes(self) -> Seq<u8> {
        self.fixed_bytes() + self.extra_bytes() + self.text_bytes()
    }

    /// The header checksum: the low 16 bits of the CRC-32 of the bytes
    /// before it.
    pub open spec fn crc16(self) -> u16 {
        (crc32_iso_hdlc(self.bytes()) % 0x10000) as u16
    }
}

/// The header of a member.
#[derive(Debug)]
pub struct MemberHeader {
    pub compression_method: CompressionMethod,
    pub modification_time: u32,
    pub extra: Option<Vec<u8>>,
    pub name: Option<String>,
    pub comment: Option<String>,
    pub extra_flags: u8,
    pub os: u8,
    pub has_crc: bool,
    pub is_text: bool,
}

/// The bytes of `value` in little-endian order.
fn u32_le_bytes(value: u32) -> (bytes: [u8; 4])
    ensures
        bytes@ == le_bytes(value as nat, 4),
{
    proof {
        lemma2_to64();
    }
    let bytes: [u8; 4] = [
        (value % 256) as u8,
        ((value / 256) % 256) as u8,
        ((value / 65536) % 256) as u8,
        ((value / 16777216) % 256) as u8,
    ];
    assert(pow2((8 * 0) as nat) == 1);
    assert((value as nat / 1) % 256 == value % 256);
    assert(le_bytes(value as nat, 4)[0] == bytes@[0]);
    assert(le_bytes(value as nat, 4)[1] == bytes@[1]);
    assert(le_bytes(value as nat, 4)[2] == bytes@[2]);
    assert(le_bytes(value as nat, 4)[3] == bytes@[3]);
    assert(bytes@ =~= le_bytes(value as nat, 4));
    bytes
}

/// The low two bytes of `value` in little-endian order.
fn u16_le_bytes(value: u16) -> (bytes: [u8; 2])
    ensures
        bytes@ == le_bytes(value as nat, 2),
{
    proof {
        lemma2_to64();
    }
    let bytes: [u8; 2] = [(value % 256) as u8, ((value / 256) % 256) as u8];
    assert(pow2((8 * 0) as nat) == 1);
    assert((value as nat / 1) % 256 == value % 256);
    assert(le_bytes(value as nat, 2)[0] == bytes@[0]);
    assert(le_bytes(value as nat, 2)[1] == bytes@[1]);
    assert(bytes@ =~= le_bytes(value as nat, 2));
    bytes
}

impl MemberHeader {
    /// The fields as plain values.
    pub open spec fn view(&self) -> HeaderFields {
        HeaderFields {
            compression_method: self.compression_method,
            modification_time: self.modification_time,
            extra: match self.extra {
                Some(extra) => Some(extra@),
                None => None,
            },
            name: match self.name {
                Some(name) => Some(name@),
                None => None,
            },
            comment: match self.comment {
                Some(comment) => Some(comment@),
                None => None,
            },
            extra_flags: self.extra_flags,
            os: self.os,
            has_crc: self.has_crc,
            is_text: self.is_text,
        }
    }

    /// The checksum that a header with these fields carries.
    pub fn crc16(&self) -> (crc: u16)
        ensures
            crc == self@.crc16(),
    {
        let table = Crc32::new();
        let mut digest = Crc32Digest::new(&table);
        let start: [u8; 4] = [ID1, ID2, self.compression_method.into(), self.flags().0];
        digest.update(start.as_slice());
        digest.update(u32_le_bytes(self.modification_time).as_slice());
        let end: [u8; 2] = [self.extra_flags, self.os];
        digest.update(end.as_slice());
        assert(digest@ =~= self@.fixed_bytes());
        match &self.extra {
            Some(extra) => {
                let len: u16 = (extra.len() % 65536) as u16;
                digest.update(u16_le_bytes(len).as_slice());
                digest.update(extra.as_slice());
            },
            None => {},
        }
        assert(digest@ =~= self@.fixed_bytes() + self@.extra_bytes());
        let ghost sofar = digest@;
        let terminator: [u8; 1] = [0];
        match &self.name {
            Some(name) => {
                digest.update(name.as_str().as_bytes());
                digest.update(terminator.as_slice());
            },
            None => {},
        }
        let ghost named = digest@;
        match &self.comment {
            Some(comment) => {
                digest.update(comment.as_str().as_bytes());
                digest.update(terminator.as_slice());
            },
            None => {},
        }
        assert(digest@ =~= sofar + self@.text_bytes());
        (digest.value() % 0x10000) as u16
    }

    /// The flag byte that tells which fields the header has.
    pub fn flags(&self) -> (flags: MemberFlags)
        ensures
            flags == self@.flags(),
    {
        let mut flags = MemberFlags(0);
        flags.set_is_text(self.is_text);
        flags.set_has_crc(self.has_crc);
        flags.set_has_extra(self.extra.is_some());
        flags.set_has_name(self.name.is_some());
        flags.set_has_comment(self.comment.is_some());
        flags
    }
}

/// The field that a header of `avail` bytes, fewer than ten, breaks off in.
pub open spec fn truncated_field(avail: nat) -> Field {
    if avail < 2 {
        Field::Magic
    } else if avail < 3 {
        Field::Method
    } else if avail < 4 {
        Field::Flags
    } else if avail < 8 {
        Field::ModificationTime
    } else if avail < 9 {
        Field::ExtraFlags
    } else {
        Field::Os
    }
}

/// Reads the ten bytes that every header starts with: the two magic bytes,
/// the method, the flags, the modification time, the extra flags and the
/// operating system.
pub open spec fn read_fixed(src: Input) -> (Result<Seq<u8>, DecodeError>, Input) {
    let avail = src.remaining();
    if avail < 2 {
        (Err(error(ErrorKind::UnexpectedEof, Field::Magic)), src.exhausted())
    } else if src.peek(2) != seq![ID1, ID2] {
        (Err(error(ErrorKind::BadMagic, Field::Magic)), src.advance(2))
    } else if avail < 10 {
        (Err(error(ErrorKind::UnexpectedEof, truncated_field(avail))), src.exhausted())
    } else {
        (Ok(src.peek(10)), src.advance(10))
    }
}

/// Reads the extra field where the header has one: its length in two bytes,
/// then that many bytes.
pub open spec fn read_optional_extra(src: Input, present: bool) -> (
    Result<Option<Seq<u8>>, DecodeError>,
    Input,
) {
    if !present {
        (Ok(None), src)
    } else {
        match src.read_le(2) {
            (Err(e), next) => (Err(error(e.kind, Field::Extra)), next),
            (Ok(len), next) => match next.read_exact(len) {
                (Err(e), after) => (Err(error(e.kind, Field::Extra)), after),
                (Ok(bytes), after) => (Ok(Some(bytes)), after),
            },
        }
    }
}

/// Reads a text that a zero byte ends, where the header has one. The text
/// has to be valid UTF-8; a text with no zero byte after it is truncated.
pub open spec fn read_optional_text(src: Input, present: bool, field: Field) -> (
    Result<Option<Seq<char>>, DecodeError>,
    Input,
) {
    if !present {
        (Ok(None), src)
    } else {
        let (bytes, next) = src.read_until(0);
        if bytes.len() == 0 || bytes.last() != 0 {
            (Err(error(ErrorKind::UnexpectedEof, field)), next)
        } else if !valid_utf8(bytes.drop_last()) {
            (Err(error(ErrorKind::InvalidUtf8, field)), next)
        } else {
            (Ok(Some(decode_utf8(bytes.drop_last()))), next)
        }
    }
}

/// Reads the fields of a header up to its checksum.
pub open spec fn read_fields(src: Input) -> (Result<HeaderFields, DecodeError>, Input) {
    match read_fixed(src) {
        (Err(e), next) => (Err(e), next),
        (Ok(fixed), s1) => {
            let flags = MemberFlags(fixed[3]);
            match read_optional_extra(s1, flags.has_bit(FEXTRA_OFFSET)) {
                (Err(e), next) => (Err(e), next),
                (Ok(extra), s2) => match read_optional_text(
                    s2,
                    flags.has_bit(FNAME_OFFSET),
                    Field::Name,
                ) {
                    (Err(e), next) => (Err(e), next),
                    (Ok(name), s3) => match read_optional_text(
                        s3,
                        flags.has_bit(FCOMMENT_OFFSET),
                        Field::Comment,
                    ) {
                        (Err(e), next) => (Err(e), next),
                        (Ok(comment), s4) => (
                            Ok(
                                HeaderFields {
                                    compression_method: method_of(fixed[2]),
                                    modification_time: le_value(fixed.subrange(4, 8)) as u32,
                                    extra,
                                    name,
                                    comment,
                                    extra_flags: fixed[8],
                                    os: fixed[9],
                                    has_crc: flags.has_bit(FHCRC_OFFSET),
                                    is_text: flags.has_bit(FTEXT_OFFSET),
                                },
                            ),
                            s4,
                        ),
                    },
                },
            }
        },
    }
}

/// Tells a header of a method other than DEFLATE from one that can be decoded.
pub open spec fn check_method(fields: HeaderFields) -> Result<HeaderFields, DecodeError> {
    if fields.compression_method != CompressionMethod::Deflate {
        Err(error(ErrorKind::UnsupportedMethod, Field::Method))
    } else {
        Ok(fields)
    }
}

/// Reads and checks a member header. Where the header carries a checksum,
/// it has to be the low 16 bits of the CRC-32 of all the bytes of the header
/// before it. The method has to be DEFLATE.
#[verifier::opaque]
pub open spec fn parse_header(src: Input) -> (Result<HeaderFields, DecodeError>, Input) {
    match read_fields(src) {
        (Err(e), next) => (Err(e), next),
        (Ok(fields), next) => if fields.has_crc {
            match next.read_le(2) {
                (Err(e), after) => (Err(error(e.kind, Field::HeaderCrc)), after),
                (Ok(crc), after) => if crc != crc32_iso_hdlc(
                    src.data.subrange(src.pos as int, next.pos as int),
                ) % 0x10000 {
                    (Err(error(ErrorKind::HeaderCrcMismatch, Field::HeaderCrc)), after)
                } else {
                    (check_method(fields), after)
                },
            }
        } else {
            (check_method(fields), next)
        },
    }
}

/// Reads the trailer of a member: the CRC-32 of the data, then their size
/// modulo 2^32, four bytes each.
pub open spec fn read_trailer(src: Input) -> (Result<(u32, u32), DecodeError>, Input) {
    match src.read_le(4) {
        (Err(e), next) => (Err(error(e.kind, Field::Trailer)), next),
        (Ok(crc32), next) => match next.read_le(4) {
            (Err(e), after) => (Err(error(e.kind, Field::Trailer)), after),
            (Ok(isize), after) => (Ok((crc32 as u32, isize as u32)), after),
        },
    }
}

/// Whether the header that was read, or the failure to read it, is what
/// `expected` says.
pub open spec fn header_is(
    r: Result<MemberHeader, DecodeError>,
    expected: Result<HeaderFields, DecodeError>,
) -> bool {
    match (r, expected) {
        (Ok(header), Ok(fields)) => header@ == fields,
        (Err(e), Err(f)) => e == f,
        _ => false,
    }
}

/// `String::from_utf8`: the string that `bytes` encode, or nothing where
/// they are not valid UTF-8.
#[verifier::external_body]
fn string_from_utf8(bytes: Vec<u8>) -> (r: Option<String>)
    ensures
        r is Some <==> valid_utf8(bytes@),
        r is Some ==> r->Some_0@ == decode_utf8(bytes@),
{
    String::from_utf8(bytes).ok()
}

/// Reads the extra field where `present` says that the header has one.
fn read_extra_field(reader: &mut ByteSource, present: bool) -> (r: Result<
    Option<Vec<u8>>,
    DecodeError,
>)
    requires
        old(reader).wf(),
    ensures
        final(reader).wf(),
        final(reader)@ == read_optional_extra(old(reader)@, present).1,
        match read_optional_extra(old(reader)@, present).0 {
            Err(e) => r == Err::<Option<Vec<u8>>, DecodeError>(e),
            Ok(None) => r == Ok::<Option<Vec<u8>>, DecodeError>(None),
            Ok(Some(bytes)) => r is Ok && r->Ok_0 is Some && r->Ok_0->Some_0@ == bytes,
        },
{
    if !present {
        return Ok(None);
    }
    let xlen: u16 = place(reader.read_u16_le(), Field::Extra)?;
    let buffer: Vec<u8> = place(reader.read_exact(xlen as usize), Field::Extra)?;
    Ok(Some(buffer))
}

/// Reads a text that a zero byte ends, where `present` says that the header
/// has one.
fn read_text(reader: &mut ByteSource, present: bool, field: Field) -> (r: Result<
    Option<String>,
    DecodeError,
>)
    requires
        old(reader).wf(),
    ensures
        final(reader).wf(),
        final(reader)@ == read_optional_text(old(reader)@, present, field).1,
        match read_optional_text(old(reader)@, present, field).0 {
            Err(e) => r == Err::<Option<String>, DecodeError>(e),
            Ok(None) => r == Ok::<Option<String>, DecodeError>(None),
            Ok(Some(text)) => r is Ok && r->Ok_0 is Some && r->Ok_0->Some_0@ == text,
        },
{
    if !present {
        return Ok(None);
    }
    let mut buffer: Vec<u8> = reader.read_until(0);
    let ghost bytes = buffer@;
    match buffer.pop() {
        Some(last) => {
            if last != 0 {
                return Err(DecodeError::new(ErrorKind::UnexpectedEof, field));
            }
        },
        None => {
            return Err(DecodeError::new(ErrorKind::UnexpectedEof, field));
        },
    }
    assert(buffer@ =~= bytes.drop_last());
    match string_from_utf8(buffer) {
        Some(text) => Ok(Some(text)),
        None => Err(DecodeError::new(ErrorKind::InvalidUtf8, field)),
    }
}

/// Reads the fields of a member header up to its checksum.
#[verifier::rlimit(80)]
pub fn read_member_fields(reader: &mut ByteSource) -> (r: Result<MemberHeader, DecodeError>)
    requires
        old(reader).wf(),
    ensures
        final(reader).wf(),
        final(reader)@ == read_fields(old(reader)@).1,
        header_is(r, read_fields(old(reader)@).0),
{
    let ghost start = reader@;
    let id1: u8 = place(reader.read_u8(), Field::Magic)?;
    let id2: u8 = place(reader.read_u8(), Field::Magic)?;
    assert(start.peek(2) =~= seq![id1, id2]);
    if id1 != ID1 || id2 != ID2 {
        return Err(DecodeError::new(ErrorKind::BadMagic, Field::Magic));
    }
    let cm: u8 = place(reader.read_u8(), Field::Method)?;
    let flg = MemberFlags(place(reader.read_u8(), Field::Flags)?);
    let ghost before_mtime = reader@;
    let mtime: u32 = place(reader.read_u32_le(), Field::ModificationTime)?;
    let xfl: u8 = place(reader.read_u8(), Field::ExtraFlags)?;
    let os: u8 = place(reader.read_u8(), Field::Os)?;
    proof {
        let fixed = start.peek(10);
        assert(fixed.subrange(4, 8) =~= before_mtime.peek(4));
        assert(reader@ == start.advance(10));
    }
    let extra = read_extra_field(reader, flg.has_extra())?;
    let name = read_text(reader, flg.has_name(), Field::Name)?;
    let comment = read_text(reader, flg.has_comment(), Field::Comment)?;
    Ok(
        MemberHeader {
            compression_method: CompressionMethod::from(cm),
            modification_time: mtime,
            extra,
            name,
            comment,
            extra_flags: xfl,
            os,
            has_crc: flg.has_crc(),
            is_text: flg.is_text(),
        },
    )
}

/// Reads and checks a member header.
pub fn parse_member_header(reader: &mut ByteSource) -> (r: Result<MemberHeader, DecodeError>)
    requires
        old(reader).wf(),
    ensures
        final(reader).wf(),
        final(reader)@ == parse_header(old(reader)@).1,
        header_is(r, parse_header(old(reader)@).0),
{
    proof {
        reveal(parse_header);
    }
    let start: usize = reader.position();
    let header = read_member_fields(reader)?;
    if header.has_crc {
        proof {
            lemma_read_fields_forward(old(reader)@);
        }
        let computed: u32 = checksum(reader.consumed_since(start)) % 0x10000;
        let stored: u16 = place(reader.read_u16_le(), Field::HeaderCrc)?;
        if stored as u32 != computed {
            return Err(DecodeError::new(ErrorKind::HeaderCrcMismatch, Field::HeaderCrc));
        }
    }
    match header.compression_method {
        CompressionMethod::Deflate => Ok(header),
        CompressionMethod::Unknown(_) => Err(
            DecodeError::new(ErrorKind::UnsupportedMethod, Field::Method),
        ),
    }
}

/// Reading the fields of a header keeps the bytes of the source and moves
/// forward in them.
pub proof fn lemma_read_fields_forward(src: Input)
    requires
        src.wf(),
    ensures
        read_fields(src).1.wf(),
        read_fields(src).1.data == src.data,
        read_fields(src).1.pos >= src.pos,
        read_fields(src).0 is Ok ==> read_fields(src).1.pos >= src.pos + 10,
{
    let (fixed, s1) = read_fixed(src);
    if fixed is Ok {
        let flags = MemberFlags(fixed->Ok_0[3]);
        let (extra, s2) = read_optional_extra(s1, flags.has_bit(FEXTRA_OFFSET));
        if extra is Ok {
            lemma_read_until_forward(s2, 0);
            let (name, s3) = read_optional_text(s2, flags.has_bit(FNAME_OFFSET), Field::Name);
            if name is Ok {
                lemma_read_until_forward(s3, 0);
            }
        }
    }
}

/// Reading the optional fields of a header keeps the bytes of the source
/// and moves forward in them.
pub proof fn lemma_read_optional_forward(src: Input, present: bool, field: Field)
    requires
        src.wf(),
    ensures
        read_optional_extra(src, present).1.wf(),
        read_optional_extra(src, present).1.data == src.data,
        read_optional_extra(src, present).1.pos >= src.pos,
        read_optional_text(src, present, field).1.wf(),
        read_optional_text(src, present, field).1.data == src.data,
        read_optional_text(src, present, field).1.pos >= src.pos,
{
    lemma_read_until_forward(src, 0);
}

/// Reading and checking a header keeps the bytes of the source and moves
/// forward in them, by at least ten bytes where it succeeds.
pub proof fn lemma_parse_header_forward(src: Input)
    requires
        src.wf(),
    ensures
        parse_header(src).1.wf(),
        parse_header(src).1.data == src.data,
        parse_header(src).1.pos >= src.pos,
        parse_header(src).0 is Ok ==> parse_header(src).1.pos >= src.pos + 10,
{
    reveal(parse_header);
    lemma_read_fields_forward(src);
}

/// Reading a trailer keeps the bytes of the source and moves forward in them.
pub proof fn lemma_read_trailer_forward(src: Input)
    requires
        src.wf(),
    ensures
        read_trailer(src).1.wf(),
        read_trailer(src).1.data == src.data,
        read_trailer(src).1.pos >= src.pos,
        read_trailer(src).0 is Ok ==> read_trailer(src).1.pos == src.pos + 8,
{
}

/// The bytes of a little-endian integer, written again from its value.
pub proof fn lemma_le_bytes_of_value(bytes: Seq<u8>)
    requires
        bytes.len() == 2 || bytes.len() == 4,
    ensures
        le_bytes(le_value(bytes), bytes.len()) == bytes,
{
    lemma2_to64();
    lemma_le_value_small(bytes);
    let value = le_value(bytes) as int;
    let again = le_bytes(value as nat, bytes.len());
    assert(pow2((8 * 0) as nat) == 1);
    assert(again[0] == (value / 1) % 256);
    assert(again[1] == (value / 256) % 256);
    let b0 = bytes[0] as int;
    let b1 = bytes[1] as int;
    if bytes.len() == 2 {
        lemma_fundamental_div_mod_converse(value, 256, b1, b0);
        lemma_fundamental_div_mod_converse(b1, 256, 0, b1);
    } else {
        let b2 = bytes[2] as int;
        let b3 = bytes[3] as int;
        assert(again[2] == (value / 65536) % 256);
        assert(again[3] == (value / 16777216) % 256);
        let q1 = b1 + 256 * b2 + 65536 * b3;
        let q2 = b2 + 256 * b3;
        lemma_fundamental_div_mod_converse(value, 256, q1, b0);
        lemma_fundamental_div_mod_converse(q1, 256, q2, b1);
        lemma_fundamental_div_mod_converse(q2, 256, b3, b2);
        lemma_fundamental_div_mod_converse(b3, 256, 0, b3);
        lemma_div_denominator(value, 256, 256);
        lemma_div_denominator(value, 65536, 256);
        assert(value / 65536 == q2);
        assert(value / 16777216 == b3);
    }
    assert(again =~= bytes);
}

/// A flag byte with no reserved bit set is the flag byte of its five flags.
pub proof fn lemma_flags_of_bits(flags: MemberFlags)
    requires
        flags.0 & 0xe0 == 0,
    ensures
        MemberFlags(0).with_bit(FTEXT_OFFSET, flags.has_bit(FTEXT_OFFSET)).with_bit(
            FHCRC_OFFSET,
            flags.has_bit(FHCRC_OFFSET),
        ).with_bit(FEXTRA_OFFSET, flags.has_bit(FEXTRA_OFFSET)).with_bit(
            FNAME_OFFSET,
            flags.has_bit(FNAME_OFFSET),
        ).with_bit(FCOMMENT_OFFSET, flags.has_bit(FCOMMENT_OFFSET)) == flags,
{
    let f = flags.0;
    let x1 = MemberFlags(0).with_bit(FTEXT_OFFSET, flags.has_bit(FTEXT_OFFSET)).0;
    assert(x1 == f & 1) by (bit_vector)
        requires
            x1 == (if (f >> 0u8) & 1 != 0 {
                0u8 | (1u8 << 0u8)
            } else {
                0u8 & !(1u8 << 0u8)
            }),
    ;
    let x2 = MemberFlags(x1).with_bit(FHCRC_OFFSET, flags.has_bit(FHCRC_OFFSET)).0;
    assert(x2 == f & 3) by (bit_vector)
        requires
            x1 == f & 1,
            x2 == (if (f >> 1u8) & 1 != 0 {
                x1 | (1u8 << 1u8)
            } else {
                x1 & !(1u8 << 1u8)
            }),
    ;
    let x3 = MemberFlags(x2).with_bit(FEXTRA_OFFSET, flags.has_bit(FEXTRA_OFFSET)).0;
    assert(x3 == f & 7) by (bit_vector)
        requires
            x2 == f & 3,
            x3 == (if (f >> 2u8) & 1 != 0 {
                x2 | (1u8 << 2u8)
            } else {
                x2 & !(1u8 << 2u8)
            }),
    ;
    let x4 = MemberFlags(x3).with_bit(FNAME_OFFSET, flags.has_bit(FNAME_OFFSET)).0;
    assert(x4 == f & 15) by (bit_vector)
        requires
            x3 == f & 7,
            x4 == (if (f >> 3u8) & 1 != 0 {
                x3 | (1u8 << 3u8)
            } else {
                x3 & !(1u8 << 3u8)
            }),
    ;
    let x5 = MemberFlags(x4).with_bit(FCOMMENT_OFFSET, flags.has_bit(FCOMMENT_OFFSET)).0;
    assert(x5 == f) by (bit_vector)
        requires
            x4 == f & 15,
            f & 0xe0 == 0,
            x5 == (if (f >> 4u8) & 1 != 0 {
                x4 | (1u8 << 4u8)
            } else {
                x4 & !(1u8 << 4u8)
            }),
    ;
}

/// The first ten bytes of a header that was read, written out again from
/// its fields, where the flag byte has no reserved bit set.
proof fn lemma_fixed_bytes(src: Input)
    requires
        src.wf(),
        read_fields(src).0 is Ok,
        src.data[src.pos + 3 as int] & 0xe0 == 0,
    ensures
        read_fields(src).0->Ok_0.fixed_bytes() == src.peek(10),
{
    lemma2_to64();
    let fields = read_fields(src).0->Ok_0;
    let fixed = read_fixed(src).0->Ok_0;
    let flags = MemberFlags(fixed[3]);
    assert(fixed == src.peek(10));
    assert(src.peek(2) =~= seq![fixed[0], fixed[1]]);
    lemma_flags_of_bits(flags);
    lemma_le_bytes_of_value(fixed.subrange(4, 8));
    crate::source::lemma_le_value_bound(fixed.subrange(4, 8));
    assert(fields.flags() == flags);
    assert(le_bytes(fields.modification_time as nat, 4) == fixed.subrange(4, 8));
    assert(fields.fixed_bytes() =~= fixed);
}

/// The extra field of a header that was read, written out again.
proof fn lemma_extra_bytes(src: Input)
    requires
        src.wf(),
        read_optional_extra(src, true).0 is Ok,
    ensures
        le_bytes(read_optional_extra(src, true).0->Ok_0->Some_0.len() % 65536, 2)
            + read_optional_extra(src, true).0->Ok_0->Some_0 == src.data.subrange(
            src.pos as int,
            read_optional_extra(src, true).1.pos as int,
        ),
{
    lemma2_to64();
    lemma_le_bytes_of_value(src.peek(2));
    crate::source::lemma_le_value_bound(src.peek(2));
    let len = le_value(src.peek(2));
    let extra = read_optional_extra(src, true).0->Ok_0->Some_0;
    assert(extra == src.advance(2).peek(len));
    assert(src.peek(2) + extra =~= src.data.subrange(src.pos as int, (src.pos + 2 + len) as int));
}

/// A text of a header that was read, written out again with its terminator.
proof fn lemma_text_bytes(src: Input, field: Field)
    requires
        src.wf(),
        read_optional_text(src, true, field).0 is Ok,
    ensures
        encode_utf8(read_optional_text(src, true, field).0->Ok_0->Some_0) + seq![0u8]
            == src.data.subrange(
            src.pos as int,
            read_optional_text(src, true, field).1.pos as int,
        ),
{
    broadcast use vstd::utf8::decode_utf8_encode_utf8;

    lemma_read_until_forward(src, 0);
    lemma_find_byte_bounds(src.data, src.pos, 0);
    let (read, next) = src.read_until(0);
    assert(read =~= src.data.subrange(src.pos as int, next.pos as int));
    assert(read.drop_last() + seq![0u8] =~= read);
}

/// The fields of a header that was read, written out again, are the bytes
/// that were read, where the flag byte has no reserved bit set: the checksum
/// of the fields is the checksum that a header with a checksum is held to.
#[verifier::rlimit(50)]
#[verifier::spinoff_prover]
pub proof fn lemma_header_bytes(src: Input)
    requires
        src.wf(),
        read_fields(src).0 is Ok,
        src.data[src.pos + 3 as int] & 0xe0 == 0,
    ensures
        read_fields(src).0->Ok_0.bytes() == src.data.subrange(
            src.pos as int,
            read_fields(src).1.pos as int,
        ),
        read_fields(src).0->Ok_0.crc16() == crc32_iso_hdlc(
            src.data.subrange(src.pos as int, read_fields(src).1.pos as int),
        ) % 0x10000,
{
    let data = src.data;
    let fields = read_fields(src).0->Ok_0;
    let (fixed, s1) = read_fixed(src);
    let flags = MemberFlags(fixed->Ok_0[3]);
    let (extra, s2) = read_optional_extra(s1, flags.has_bit(FEXTRA_OFFSET));
    let (name, s3) = read_optional_text(s2, flags.has_bit(FNAME_OFFSET), Field::Name);
    let (comment, s4) = read_optional_text(s3, flags.has_bit(FCOMMENT_OFFSET), Field::Comment);
    lemma_read_optional_forward(s1, flags.has_bit(FEXTRA_OFFSET), Field::Extra);
    lemma_read_optional_forward(s2, flags.has_bit(FNAME_OFFSET), Field::Name);
    lemma_read_optional_forward(s3, flags.has_bit(FCOMMENT_OFFSET), Field::Comment);
    lemma_fixed_bytes(src);
    let part1 = data.subrange(src.pos as int, s1.pos as int);
    let part2 = data.subrange(s1.pos as int, s2.pos as int);
    let part3 = data.subrange(s2.pos as int, s3.pos as int);
    let part4 = data.subrange(s3.pos as int, s4.pos as int);
    assert(fields.fixed_bytes() == part1);
    assert(fields.extra_bytes() == part2) by {
        if flags.has_bit(FEXTRA_OFFSET) {
            lemma_extra_bytes(s1);
        } else {
            assert(part2 =~= Seq::<u8>::empty());
        }
    }
    let name_part = match fields.name {
        Some(text) => encode_utf8(text) + seq![0u8],
        None => Seq::<u8>::empty(),
    };
    let comment_part = match fields.comment {
        Some(text) => encode_utf8(text) + seq![0u8],
        None => Seq::<u8>::empty(),
    };
    assert(name_part == part3) by {
        if flags.has_bit(FNAME_OFFSET) {
            lemma_text_bytes(s2, Field::Name);
        } else {
            assert(part3 =~= Seq::<u8>::empty());
        }
    }
    assert(comment_part == part4) by {
        if flags.has_bit(FCOMMENT_OFFSET) {
            lemma_text_bytes(s3, Field::Comment);
        } else {
            assert(part4 =~= Seq::<u8>::empty());
        }
    }
    assert(fields.text_bytes() == part3 + part4);
    assert(part1 + part2 + (part3 + part4) =~= data.subrange(src.pos as int, s4.pos as int));
}

/// A byte that does not occur is found nowhere.
pub proof fn lemma_find_byte_absent(data: Seq<u8>, from: nat, delim: u8)
    requires
        forall|i: int| from <= i < data.len() ==> data[i] != delim,
    ensures
        crate::source::find_byte(data, from, delim) == data.len(),
    decreases data.len() - from,
{
    if from < data.len() {
        lemma_find_byte_absent(data, from + 1, delim);
    }
}

/// A header whose name is not ended by a zero byte before the input ends is
/// truncated in the name.
pub proof fn lemma_truncated_name(src: Input)
    requires
        src.wf(),
        read_fixed(src).0 is Ok,
        MemberFlags(read_fixed(src).0->Ok_0[3]).has_bit(FNAME_OFFSET),
        read_optional_extra(
            read_fixed(src).1,
            MemberFlags(read_fixed(src).0->Ok_0[3]).has_bit(FEXTRA_OFFSET),
        ).0 is Ok,
        forall|i: int|
            read_optional_extra(
                read_fixed(src).1,
                MemberFlags(read_fixed(src).0->Ok_0[3]).has_bit(FEXTRA_OFFSET),
            ).1.pos <= i < src.data.len() ==> src.data[i] != 0,
    ensures
        parse_header(src).0 == Err::<HeaderFields, DecodeError>(
            error(ErrorKind::UnexpectedEof, Field::Name),
        ),
{
    reveal(parse_header);
    let flags = MemberFlags(read_fixed(src).0->Ok_0[3]);
    let s2 = read_optional_extra(read_fixed(src).1, flags.has_bit(FEXTRA_OFFSET)).1;
    lemma_find_byte_absent(src.data, s2.pos, 0);
}

/// Reading up to a delimiter keeps the bytes of the source and moves forward
/// in them.
pub proof fn lemma_read_until_forward(src: Input, delim: u8)
    requires
        src.wf(),
    ensures
        src.read_until(delim).1.wf(),
        src.read_until(delim).1.data == src.data,
        src.read_until(delim).1.pos >= src.pos,
{
    lemma_find_byte_bounds(src.data, src.pos, delim);
}

/// The place where a byte is found lies between the start of the search and
/// the end of the data.
pub proof fn lemma_find_byte_bounds(data: Seq<u8>, from: nat, delim: u8)
    requires
        from <= data.len(),
    ensures
        from <= crate::source::find_byte(data, from, delim) <= data.len(),
    decreases data.len() - from,
{
    if from < data.len() && data[from as int] != delim {
        lemma_find_byte_bounds(data, from + 1, delim);
    }
}

/// A reader of member headers and trailers, at a byte boundary of the source.
pub struct GzipReader<'r, 'a> {
    reader: &'r mut ByteSource<'a>,
}

impl<'r, 'a> GzipReader<'r, 'a> {
    /// The byte source that the reader has borrowed.
    pub closed spec fn source(self) -> &'r mut ByteSource<'a> {
        self.reader
    }

    /// A reader on the source `reader`, which has to be at a byte boundary.
    pub fn new(reader: &'r mut ByteSource<'a>) -> (g: Self)
        ensures
            *g.source() == *old(reader),
            *final(g.source()) == *final(reader),
    {
        Self { reader }
    }

    /// Reads and checks the header of the next member.
    pub fn parse_header(self) -> (r: Result<(), DecodeError>)
        requires
            self.source().wf(),
        ensures
            final(self.source()).wf(),
            final(self.source())@ == parse_header(self.source()@).1,
            r is Ok <==> parse_header(self.source()@).0 is Ok,
            r is Err ==> r->Err_0 == parse_header(self.source()@).0->Err_0,
    {
        match parse_member_header(self.reader) {
            Ok(_) => Ok(()),
            Err(e) => Err(e),
        }
    }

    /// Reads the trailer of a member: the CRC-32 and the size of its data.
    pub fn read_crc32_and_isize(self) -> (r: Result<(u32, u32), DecodeError>)
        requires
            self.source().wf(),
        ensures
            final(self.source()).wf(),
            (r, final(self.source())@) == read_trailer(self.source()@),
    {
        let crc32: u32 = place(self.reader.read_u32_le(), Field::Trailer)?;
        let isize: u32 = place(self.reader.read_u32_le(), Field::Trailer)?;
        Ok((crc32, isize))
    }

    /// Whether the source has no more bytes.
    pub fn is_empty(&self) -> (r: bool)
        requires
            self.source().wf(),
        ensures
            r == (self.source()@.remaining() == 0),
    {
        self.reader.is_empty()
    }
}

/// The trailer of a member.
#[derive(Debug)]
pub struct MemberFooter {
    pub data_crc32: u32,
    pub data_size: u32,
}

} // verus!
