//! Tools for a 16-bit console ROM: the asset compression codec (a sliding
//! window of 256 bytes with literal runs and back-references), tile-map
//! layout conversion, and the ROM checksum.

use vstd::prelude::*;

pub mod codec;
pub mod compress;
pub mod convert;
pub mod decompress;
pub mod fix_checksum;

verus! {

/// Errors reported by the toolkit.
#[derive(Debug, Clone, Copy, PartialEq, Eq, Structural)]
pub enum PMDTError {
    /// The command line held the wrong number of arguments.
    InvalidNumOfArguments,
    /// The ROM image is too short to hold a header and a checksummed body.
    InvalidRomSize,
    /// A mapping file name carries none of the known extensions.
    UnknownMappingType,
    /// A mapping file's size does not fit its encoding.
    WrongMappingSize,
    /// A compressed stream ended in the middle of a command.
    TruncatedStream,
}

} // verus!
