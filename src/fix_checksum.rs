//! The ROM checksum: the 16-bit sum of the big-endian words of the body
//! (from byte 0x200 on), stored big-endian at bytes 0x18E and 0x18F.
use vstd::prelude::*;
use crate::PMDTError;

verus! {

/// Offset of the first checksummed byte.
pub const BODY_START: usize = 0x200;

/// Offset of the stored checksum's high byte.
pub const CHECKSUM_AT: usize = 0x18E;

/// The big-endian word at byte `i`.
pub open spec fn word_at(rom: Seq<u8>, i: int) -> int {
    rom[i] * 256 + rom[i + 1]
}

/// The sum of the first `k` body words, wrapped to 16 bits.
pub open spec fn body_sum(rom: Seq<u8>, k: int) -> int
    decreases k,
{
    if k <= 0 {
        0
    } else {
        (body_sum(rom, k - 1) + word_at(rom, 0x200 + 2 * (k - 1))) % 65536
    }
}

/// The checksum of a ROM: every complete body word summed (a trailing odd
/// byte is left out).
pub open spec fn checksum_of(rom: Seq<u8>) -> int {
    body_sum(rom, (rom.len() - 0x200) / 2)
}

/// The checksum stored in the header.
pub open spec fn stored_checksum(rom: Seq<u8>) -> int {
    word_at(rom, 0x18E)
}

/// Validates and repairs a ROM image's checksum.
pub struct FixChecksum {}

impl FixChecksum {
    /// Computes the checksum of `rom` and, where the stored one differs,
    /// writes the computed one in its place. Gives the stored and the
    /// computed checksum. Fails on an image of at most 0x201 bytes.
    pub fn fix(rom: &mut Vec<u8>) -> (r: Result<(u16, u16), PMDTError>)
        ensures
            old(rom)@.len() <= 0x201 ==> r == Err::<(u16, u16), PMDTError>(
                PMDTError::InvalidRomSize,
            ) && final(rom)@ == old(rom)@,
            old(rom)@.len() > 0x201 ==> {
                let stored = stored_checksum(old(rom)@);
                let calc = checksum_of(old(rom)@);
                &&& r == Ok::<(u16, u16), PMDTError>((stored as u16, calc as u16))
                &&& final(rom)@ == if stored == calc {
                    old(rom)@
                } else {
                    old(rom)@.update(0x18E, (calc / 256) as u8).update(0x18F, (calc % 256) as u8)
                }
            },
    {
        if rom.len() <= 0x201 {
            return Err(PMDTError::InvalidRomSize);
        }
        let word_length = (rom.len() - BODY_START) / 2;
        let checksum: u32 = rom[CHECKSUM_AT] as u32 * 256 + rom[CHECKSUM_AT + 1] as u32;
        let mut calc_checksum: u32 = 0;
        let mut index: usize = 0;
        while index < word_length
            invariant
                rom@ == old(rom)@,
                word_length == (rom@.len() - 0x200) / 2,
                rom@.len() > 0x201,
                0x200 + 2 * word_length <= rom.len(),
                index <= word_length,
                calc_checksum == body_sum(rom@, index as int),
                calc_checksum < 65536,
            decreases word_length - index,
        {
            let i = BODY_START + index * 2;
            let word = rom[i] as u32 * 256 + rom[i + 1] as u32;
            calc_checksum = (calc_checksum + word) % 65536;
            index += 1;
        }
        if checksum != calc_checksum {
            rom.set(CHECKSUM_AT, (calc_checksum / 256) as u8);
            rom.set(CHECKSUM_AT + 1, (calc_checksum % 256) as u8);
        }
        Ok((checksum as u16, calc_checksum as u16))
    }
}

} // verus!
