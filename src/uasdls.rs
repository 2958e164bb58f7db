//! The block check of the UAS Datalink Local Set (MISB ST 0601): a running
//! 16-bit sum in which bytes at even offsets count as high bytes and bytes at
//! odd offsets as low bytes.
use vstd::prelude::*;

use crate::checksum::CheckSumCalc;

verus! {

/// What the byte at offset `i` adds to the sum: `b * 256` at even offsets,
/// `b` at odd ones.
pub open spec fn bcc_term(i: int, b: u8) -> nat {
    if (i + 1) % 2 == 1 {
        b as nat * 256
    } else {
        b as nat
    }
}

/// The block check of `bytes`, modulo `2^16`.
pub open spec fn bcc(bytes: Seq<u8>) -> u16
    decreases bytes.len(),
{
    if bytes.len() == 0 {
        0
    } else {
        ((bcc(bytes.drop_last()) + bcc_term(bytes.len() - 1, bytes.last())) % 0x1_0000) as u16
    }
}

/// Checksum calculator for UAS Local Set packets.
#[derive(Debug, Clone, Copy)]
pub struct CRC;

impl CheckSumCalc for CRC {
    open spec fn spec_checksum(&self, bytes: Seq<u8>) -> u16 {
        bcc(bytes)
    }

    fn checksum(&self, bytes: &[u8]) -> (r: u16) {
        let mut sum: u16 = 0;
        let mut i: usize = 0;
        while i < bytes.len()
            invariant
                i <= bytes@.len(),
                sum == bcc(bytes@.subrange(0, i as int)),
            decreases bytes@.len() - i,
        {
            let b = bytes[i];
            let term: u32 = if (i + 1) % 2 == 1 {
                b as u32 * 256
            } else {
                b as u32
            };
            proof {
                let next = bytes@.subrange(0, i + 1);
                assert(next.drop_last() =~= bytes@.subrange(0, i as int));
            }
            sum = ((sum as u32 + term) % 0x1_0000) as u16;
            i = i + 1;
        }
        proof {
            assert(bytes@.subrange(0, bytes@.len() as int) =~= bytes@);
        }
        sum
    }
}

} // verus!
