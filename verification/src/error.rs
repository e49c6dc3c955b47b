use vstd::prelude::*;
use crate::bit_reader::ByteSizeError;

verus! {

/// Why a GIF could not be decoded.
#[derive(Debug, Clone, PartialEq, Eq)]
pub enum DecodeError {
    /// A read would run past the end of the file's bytes. Indexing there
    /// would panic; the decoder reports it instead, on exactly those inputs,
    /// and leaves it to the caller to abort.
    UnexpectedEnd,
    /// The LZW minimum code size of an image is outside `1..=8`: the clear
    /// code and code widths computed from it would overflow. Reported instead
    /// of the arithmetic panic, on exactly those inputs.
    InvalidMinimumCodeSize,
    /// The image data ran out of bits in the middle of a code, or the code
    /// width grew past 12 bits.
    BitRead(ByteSizeError),
    /// A code of the image data has no entry in the code table. The number is
    /// the exit status that tells the four places apart: 1 for the first code
    /// after a clear code, 2 for a code up to the last one assigned, 3 for the
    /// previous code when the current one is new, 4 for the previous code when
    /// a new entry is made from it.
    InvalidCode(u8),
}

} // verus!
