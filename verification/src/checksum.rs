//! CRC-32/ISO-HDLC, computed by the `crc` crate.

use vstd::prelude::*;

verus! {

/// The parameters of a CRC algorithm, as the catalogue of parametrised CRC
/// algorithms gives them.
#[derive(Clone, Copy, Debug, PartialEq, Eq, Structural)]
pub struct CrcParameters {
    /// The number of bits of the register.
    pub width: u8,
    /// The generator polynomial, highest term left out, not reflected.
    pub poly: u32,
    /// The register before the first byte.
    pub init: u32,
    /// Whether each byte is read least significant bit first.
    pub refin: bool,
    /// Whether the register is reflected before it is given out.
    pub refout: bool,
    /// What the register is xor-ed with before it is given out.
    pub xorout: u32,
}

/// CRC-32/ISO-HDLC, the checksum of gzip: the polynomial 0x04C11DB7, which
/// reflected is 0xEDB88320, the initial value 0xFFFFFFFF, input and output
/// reflected, and the final xor 0xFFFFFFFF.
pub open spec fn iso_hdlc() -> CrcParameters {
    CrcParameters {
        width: 32,
        poly: 0x04c1_1db7,
        init: 0xffff_ffff,
        refin: true,
        refout: true,
        xorout: 0xffff_ffff,
    }
}

/// The lookup table of a CRC algorithm of 32 bits.
///
/// Holds a `crc::Crc<u32>`, which Verus cannot see into.
#[verifier::external_body]
pub struct Crc32 {
    inner: crc::Crc<u32>,
}

/// The parameters of the algorithm that a table was made for.
pub uninterp spec fn table_parameters(t: Crc32) -> CrcParameters;

/// A running CRC-32 over the bytes fed to it so far.
///
/// Holds a `crc::Digest<u32>`, which Verus cannot see into.
#[verifier::external_body]
pub struct Crc32Digest<'a> {
    inner: crc::Digest<'a, u32>,
}

/// The bytes fed to a digest since it was made, in order.
pub uninterp spec fn digest_bytes(d: Crc32Digest<'_>) -> Seq<u8>;

/// The CRC-32/ISO-HDLC checksum of `bytes`, as `crc::Digest::finalize` returns
/// it for a digest that was fed exactly these bytes.
pub uninterp spec fn crc32_iso_hdlc(bytes: Seq<u8>) -> u32;

/// `crc::Crc::<u32>::new` on `CRC_32_ISO_HDLC`: builds the lookup table of
/// that algorithm. The table keeps the algorithm that it was made for, and
/// the catalogue gives `CRC_32_ISO_HDLC` the parameters claimed here.
#[verifier::external_body]
fn crc32_table() -> (t: Crc32)
    ensures
        table_parameters(t) == iso_hdlc(),
{
    Crc32 { inner: crc::Crc::<u32>::new(&crc::CRC_32_ISO_HDLC) }
}

/// The field `algorithm` of `crc::Crc`: the parameters of the algorithm that
/// the table was made for.
#[verifier::external_body]
fn table_algorithm(t: &Crc32) -> (p: CrcParameters)
    ensures
        p == table_parameters(*t),
{
    let algorithm = t.inner.algorithm;
    CrcParameters {
        width: algorithm.width,
        poly: algorithm.poly,
        init: algorithm.init,
        refin: algorithm.refin,
        refout: algorithm.refout,
        xorout: algorithm.xorout,
    }
}

/// `crc::Crc::digest`: a digest that has been fed nothing yet.
#[verifier::external_body]
fn digest_new<'a>(table: &'a Crc32) -> (d: Crc32Digest<'a>)
    ensures
        digest_bytes(d) == Seq::<u8>::empty(),
{
    Crc32Digest { inner: table.inner.digest() }
}

/// `crc::Digest::update`: feeds `bytes` to the digest, after what it was fed before.
#[verifier::external_body]
fn digest_update(d: &mut Crc32Digest<'_>, bytes: &[u8])
    ensures
        digest_bytes(*final(d)) == digest_bytes(*old(d)) + bytes@,
{
    d.inner.update(bytes)
}

/// `crc::Digest::finalize` on a clone of the digest: the checksum of the bytes
/// fed so far. The digest itself is left as it was.
#[verifier::external_body]
fn digest_value(d: &Crc32Digest<'_>) -> (crc: u32)
    ensures
        crc == crc32_iso_hdlc(digest_bytes(*d)),
{
    d.inner.clone().finalize()
}

impl Crc32 {
    /// The parameters of the algorithm that the table is for.
    pub open spec fn view(&self) -> CrcParameters {
        table_parameters(*self)
    }

    /// Builds the table of CRC-32/ISO-HDLC. One table serves any number of
    /// digests.
    pub fn new() -> (t: Self)
        ensures
            t@ == iso_hdlc(),
    {
        crc32_table()
    }

    /// The parameters of the algorithm that the table is for.
    pub fn parameters(&self) -> (p: CrcParameters)
        ensures
            p == self@,
    {
        table_algorithm(self)
    }
}

impl<'a> Crc32Digest<'a> {
    /// The bytes fed to this digest so far.
    pub open spec fn view(&self) -> Seq<u8> {
        digest_bytes(*self)
    }

    /// A digest that has been fed nothing.
    pub fn new(table: &'a Crc32) -> (d: Self)
        ensures
            d@ == Seq::<u8>::empty(),
    {
        digest_new(table)
    }

    /// Feeds `bytes` to the digest.
    pub fn update(&mut self, bytes: &[u8])
        ensures
            final(self)@ == old(self)@ + bytes@,
    {
        digest_update(self, bytes)
    }

    /// The checksum of everything fed so far.
    pub fn value(&self) -> (crc: u32)
        ensures
            crc == crc32_iso_hdlc(self@),
    {
        digest_value(self)
    }
}

/// The checksum of `bytes`, computed in one go.
pub fn checksum(bytes: &[u8]) -> (crc: u32)
    ensures
        crc == crc32_iso_hdlc(bytes@),
{
    let table = Crc32::new();
    let mut digest = Crc32Digest::new(&table);
    digest.update(bytes);
    assert(Seq::<u8>::empty() + bytes@ =~= bytes@);
    digest.value()
}

} // verus!
