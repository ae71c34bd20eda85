//! A DEFLATE (RFC 1951) codec with support for the zlib wrapper (RFC 1950),
//! with its behaviour stated and proved.
//!
//! - `decompress` and `Decoder` follow `decode::decompressed`, which states
//!   the bitstream format as spec functions (`inflate` and its parts).
//! - `compress` and `Encoder` produce stored blocks at level 0 and otherwise
//!   one block holding the tokens of an LZ77 search, coded with the fixed
//!   Huffman code or with one built from the tokens (or stored blocks where
//!   those are shorter); the `roundtrip` module proves that decompressing
//!   their output gives back the data and, for zlib, its Adler-32 checksum.
//! - `Adler32` is the rolling checksum of the zlib footer; its laws (the
//!   checksum does not depend on how the input is split, and its closed form)
//!   are in `adler32`.
use vstd::prelude::*;

pub mod adler32;
pub mod bits;
pub mod canonical;
pub mod bitwriter;
pub mod decode;
pub mod dynamic;
pub mod encode;
pub mod fixed;
pub mod huffman;
pub mod inflate;
pub mod lengths;
pub mod lz77;
pub mod roundtrip;

pub use adler32::Adler32;
pub use decode::{decompress, Decoder, DecoderStream};
pub use encode::{compress, CompressionLevel, CompressionStrategy, Encoder, EncoderStream};

verus! {

/// Defines the format for a compressed bitstream.
#[derive(Copy, Clone, PartialEq, Eq, Structural, Debug)]
pub enum Format {
    /// Raw DEFLATE data.
    Raw,
    /// Zlib header with an Adler-32 footer.
    Zlib,
}

/// Where a stream's output goes: a vector that grows, or a buffer of fixed
/// size that is filled from its start.
pub enum Sink<'a> {
    /// Output is appended to the vector.
    Vec(&'a mut Vec<u8>),
    /// Output is copied to the start of the buffer; it must fit.
    Buf(&'a mut [u8]),
}

/// Appends `out` to `v`.
pub(crate) fn append_to_vec(v: &mut Vec<u8>, out: &Vec<u8>)
    ensures
        final(v)@ == old(v)@ + out@,
{
    let n = out.len();
    let mut i: usize = 0;
    while i < n
        invariant
            i <= n == out@.len(),
            v@ == old(v)@ + out@.take(i as int),
        decreases n - i,
    {
        v.push(out[i]);
        assert(out@.take(i + 1) =~= out@.take(i as int).push(out@[i as int]));
        i = i + 1;
    }
    assert(out@.take(n as int) =~= out@);
}

/// Copies `out` to the start of `b` when it fits, and says whether it did;
/// otherwise `b` is left as it was.
pub(crate) fn copy_to_buf(b: &mut [u8], out: &Vec<u8>) -> (r: bool)
    ensures
        r == (out@.len() <= old(b)@.len()),
        r ==> final(b)@ == out@ + old(b)@.skip(out@.len() as int),
        !r ==> final(b)@ == old(b)@,
{
    let n = out.len();
    if n > b.len() {
        return false;
    }
    let mut i: usize = 0;
    while i < n
        invariant
            i <= n == out@.len() <= b@.len(),
            b@.len() == old(b)@.len(),
            b@ == out@.take(i as int) + old(b)@.skip(i as int),
        decreases n - i,
    {
        b[i] = out[i];
        assert(b@ =~= out@.take(i + 1) + old(b)@.skip(i + 1));
        i = i + 1;
    }
    assert(out@.take(n as int) =~= out@);
    true
}

/// An I/O error of the standard library, carried through unopened.
#[verifier::external_type_specification]
#[verifier::external_body]
pub struct ExIoError(std::io::Error);

/// Errors that may occur during compression or decompression.
#[derive(Debug)]
pub enum Error {
    /// Not enough input was provided.
    Underflow,
    /// The bitstream was corrupt.
    InvalidBitstream,
    /// Output buffer was too small.
    Overflow,
    /// Attempt to write into a finished stream.
    Finished,
    /// A system I/O error.
    Io(std::io::Error),
}

impl From<std::io::Error> for Error {
    /// Wraps the I/O error in `Error::Io`.
    fn from(error: std::io::Error) -> (r: Self) {
        Self::Io(error)
    }
}

impl vstd::std_specs::convert::FromSpecImpl<std::io::Error> for Error {
    /// `from` follows `from_spec`.
    open spec fn obeys_from_spec() -> bool {
        true
    }

    /// The I/O error wrapped in `Error::Io`.
    open spec fn from_spec(error: std::io::Error) -> Error {
        Error::Io(error)
    }
}

} // verus!
