//! A sans-I/O LZW decompression engine.
//!
//! The decoder turns a stream of variable-width dictionary codes back into
//! raw bytes, compatible with the GIF and TIFF usages of LZW.  It performs
//! no I/O itself: the caller hands `decode_bytes` an input slice and an
//! output buffer, and the engine reports how much of each it consumed.

use vstd::prelude::*;

pub mod bitbuf;
pub mod decode;
pub mod pokedex;
pub mod scratch;
pub mod table;

verus! {

/// A dictionary code: an index into the LZW dictionary, at most 12 bits wide
/// in every stream this engine accepts.
pub type Code = u16;

/// The maximum width in bits of a dictionary code.
pub const MAX_CODESIZE: u8 = 12;

/// The maximum number of dictionary entries: `1 << MAX_CODESIZE`.
pub const MAX_ENTRIES: usize = 4096;

/// The order in which bits of the input byte stream are assembled into codes.
#[derive(Clone, Copy, Debug, PartialEq, Eq, Structural)]
pub enum BitOrder {
    /// The most significant bit of each byte is read first (TIFF).
    Msb,
    /// The least significant bit of each byte is read first (GIF).
    Lsb,
}

/// The condition a decoding call ended in, when it did not fail.
#[derive(Clone, Copy, Debug, PartialEq, Eq, Structural)]
pub enum LzwStatus {
    /// Some progress was made: input was consumed or output was produced.
    Progress,
    /// No progress is possible without more input or a larger output buffer.
    NoProgress,
    /// The end marker of the stream was reached; decoding is complete.
    Done,
}

/// The one kind of decoding failure.
#[derive(Clone, Copy, Debug, PartialEq, Eq, Structural)]
pub enum LzwError {
    /// A decoded symbol referenced a dictionary entry that does not exist.
    InvalidCode,
}

/// What one `decode_bytes` call did: how many bytes of the input it read,
/// how many bytes of the output it wrote, and the condition it ended in.
#[derive(Clone, Copy, Debug)]
pub struct BufferResult {
    /// The number of bytes consumed from the start of the input slice.
    pub consumed_in: usize,
    /// The number of bytes written to the start of the output buffer.
    pub consumed_out: usize,
    /// The condition the call ended in.
    pub status: Result<LzwStatus, LzwError>,
}

} // verus!
