//! Checksums for the integrity trailer.
use vstd::prelude::*;

verus! {

/// The key and length bytes that open the checksum trailer.
pub open spec fn checksum_header() -> Seq<u8> {
    seq![0x01u8, 0x02u8]
}

/// The key reserved for the checksum trailer at the outermost depth.
pub const CHECKSUM_KEY: u8 = 0x01;

/// The length the checksum trailer declares.
pub const CHECKSUM_LENGTH: u8 = 0x02;

/// A 16-bit integrity function over a span of bytes. The encoder and the
/// decoder must be given the same one.
pub trait CheckSumCalc {
    /// The checksum of `bytes`.
    spec fn spec_checksum(&self, bytes: Seq<u8>) -> u16;

    fn checksum(&self, bytes: &[u8]) -> (r: u16)
        ensures
            r == self.spec_checksum(bytes@),
    ;
}

/// The CRC-16 of the ISO/IEC 14443-3 type A algorithm.
pub uninterp spec fn crc16_iso_iec_14443_3_a(bytes: Seq<u8>) -> u16;

/// Relies on `crc::Crc::<u16>::checksum` with `crc::CRC_16_ISO_IEC_14443_3_A`:
/// the result depends on the bytes alone.
#[verifier::external_body]
fn crc16(bytes: &[u8]) -> (r: u16)
    ensures
        r == crc16_iso_iec_14443_3_a(bytes@),
{
    crc::Crc::<u16>::new(&crc::CRC_16_ISO_IEC_14443_3_A).checksum(bytes)
}

/// The default checksum: CRC-16 (ISO/IEC 14443-3 type A).
#[derive(Debug, Clone, Copy)]
pub struct WrappedCRC;

impl Default for WrappedCRC {
    fn default() -> (r: Self)
        ensures
            r == WrappedCRC,
    {
        WrappedCRC
    }
}

impl CheckSumCalc for WrappedCRC {
    open spec fn spec_checksum(&self, bytes: Seq<u8>) -> u16 {
        crc16_iso_iec_14443_3_a(bytes)
    }

    fn checksum(&self, bytes: &[u8]) -> (r: u16) {
        crc16(bytes)
    }
}

} // verus!
