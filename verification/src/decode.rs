//! Decompression: the zlib wrapper (RFC 1950) around DEFLATE data, the
//! one-shot `decompress`, and the reusable `Decoder` with its streams.
use vstd::prelude::*;
use crate::bits::BitPos;
use crate::inflate::{inflate, inflate_blocks, inflate_stream};
use crate::{append_to_vec, copy_to_buf, Error, Format, Sink};

verus! {

/// Why the two-byte zlib header at the start of `input` is refused, if it
/// is: it must name the DEFLATE method with a window of at most 32K, pass its
/// check bits, and ask for no preset dictionary.
pub open spec fn zlib_header_error(input: Seq<u8>) -> Option<Error> {
    if input.len() < 2 {
        Some(Error::Underflow)
    } else {
        let cmf = input[0] as int;
        let flg = input[1] as int;
        if cmf % 16 != 8 || cmf / 16 > 7 || (cmf * 256 + flg) % 31 != 0 || (flg / 32) % 2 == 1 {
            Some(Error::InvalidBitstream)
        } else {
            None
        }
    }
}

/// The four bytes at `b`, most significant first.
pub open spec fn read_be32(input: Seq<u8>, b: int) -> u32 {
    (input[b] * 16777216 + input[b + 1] * 65536 + input[b + 2] * 256 + input[b + 3]) as u32
}

/// What decompressing `input` in `format` gives: the decompressed bytes and,
/// for zlib, the Adler-32 checksum its footer records.
pub open spec fn decompressed(input: Seq<u8>, format: Format) -> Result<
    (Seq<u8>, Option<u32>),
    Error,
> {
    match format {
        Format::Raw => match inflate(input) {
            Err(e) => Err(e),
            Ok((_, out)) => Ok((out, None)),
        },
        Format::Zlib => match zlib_header_error(input) {
            Some(e) => Err(e),
            None => match inflate_blocks(input, 16, Seq::empty()) {
                Err(e) => Err(e),
                Ok((q, out)) => {
                    let b = (q + 7) / 8;
                    if b + 4 > input.len() {
                        Err(Error::Underflow)
                    } else {
                        Ok((out, Some(read_be32(input, b))))
                    }
                },
            },
        },
    }
}

/// Decompresses `input` as `decompressed` states.
fn decompress_bytes(input: &[u8], format: Format) -> (r: Result<(Vec<u8>, Option<u32>), Error>)
    ensures
        match decompressed(input@, format) {
            Ok((out, sum)) => r matches Ok((v, s)) && v@ == out && s == sum,
            Err(e) => r matches Err(e2) && e2 == e,
        },
{
    let n = input.len();
    let mut out: Vec<u8> = Vec::new();
    match format {
        Format::Raw => {
            let mut p = BitPos::start();
            match inflate_stream(input, &mut p, &mut out) {
                Ok(()) => Ok((out, None)),
                Err(e) => Err(e),
            }
        },
        Format::Zlib => {
            if n < 2 {
                return Err(Error::Underflow);
            }
            let cmf = input[0];
            let flg = input[1];
            if cmf % 16 != 8 || cmf / 16 > 7 || (cmf as u32 * 256 + flg as u32) % 31 != 0 || (flg
                / 32) % 2 == 1 {
                return Err(Error::InvalidBitstream);
            }
            let mut p = BitPos { byte: 2, bit: 0 };
            match inflate_stream(input, &mut p, &mut out) {
                Ok(()) => {},
                Err(e) => {
                    return Err(e);
                },
            }
            let mut b = p.byte;
            if p.bit != 0 {
                b = b + 1;
            }
            assert(b as int == (p.at() + 7) / 8) by (nonlinear_arith)
                requires
                    p.bit < 8,
                    p.bit == 0 ==> b == p.byte,
                    p.bit != 0 ==> b == p.byte + 1,
                    p.at() == p.byte * 8 + p.bit,
            ;
            if n - b < 4 {
                return Err(Error::Underflow);
            }
            let sum = (input[b] as u32) * 16777216 + (input[b + 1] as u32) * 65536 + (input[b
                + 2] as u32) * 256 + input[b + 3] as u32;
            Ok((out, Some(sum)))
        },
    }
}

/// Decompresses a complete bitstream of the given format: the decompressed
/// bytes and, for zlib, the checksum that the stream's footer records.
pub fn decompress(buf: &[u8], format: Format) -> (r: Result<(Vec<u8>, Option<u32>), Error>)
    ensures
        match decompressed(buf@, format) {
            Ok((out, sum)) => r matches Ok((v, s)) && v@ == out && s == sum,
            Err(e) => r matches Err(e2) && e2 == e,
        },
{
    decompress_bytes(buf, format)
}

/// Stateful context for decompression.
pub struct Decoder {
    format: Format,
}

impl Decoder {
    /// The format of the bitstreams this decoder reads.
    pub closed spec fn format_spec(&self) -> Format {
        self.format
    }

    /// Creates a new decoder for raw DEFLATE bitstreams.
    pub fn new() -> (r: Self)
        ensures
            r.format_spec() == Format::Raw,
    {
        Decoder { format: Format::Raw }
    }

    /// Creates a new decoder on the heap.
    pub fn boxed() -> (r: Box<Self>)
        ensures
            r.format_spec() == Format::Raw,
    {
        Box::new(Self::new())
    }

    /// Sets the expected format of the input data.
    pub fn set_format(&mut self, format: Format)
        ensures
            final(self).format_spec() == format,
    {
        self.format = format;
    }

    /// Creates a stream that decompresses into the given vector.
    pub fn stream_into_vec<'a>(&mut self, vec: &'a mut Vec<u8>) -> (r: DecoderStream<'a>)
        ensures
            final(self).format_spec() == old(self).format_spec(),
            r.format_spec() == old(self).format_spec(),
            r.pending() == Seq::<u8>::empty(),
            !r.complete(),
            r.writes_to_vec(),
            r.target_before() == old(vec)@,
            final(vec)@ == final(r.vec_sink())@,
    {
        DecoderStream { target: Sink::Vec(vec), input: Vec::new(), format: self.format, done: None }
    }

    /// Creates a stream that decompresses into the given buffer, from its
    /// start.
    pub fn stream_into_buf<'a>(&mut self, buf: &'a mut [u8]) -> (r: DecoderStream<'a>)
        ensures
            final(self).format_spec() == old(self).format_spec(),
            r.format_spec() == old(self).format_spec(),
            r.pending() == Seq::<u8>::empty(),
            !r.complete(),
            !r.writes_to_vec(),
            r.target_before() == old(buf)@,
            final(buf)@ == final(r.buf_sink())@,
    {
        DecoderStream { target: Sink::Buf(buf), input: Vec::new(), format: self.format, done: None }
    }
}

impl Default for Decoder {
    /// A decoder for raw DEFLATE bitstreams, as `new` gives it.
    fn default() -> (r: Self)
        ensures
            r.format_spec() == Format::Raw,
    {
        Self::new()
    }
}

/// Decompression stream that writes into a vector or a buffer. Each `write`
/// decodes the compressed input written so far: it reports a corrupt
/// bitstream at once, and once the bitstream is complete further writes are
/// refused with `Finished`. The input and the decoded output are kept in
/// memory, and `finish` delivers the output to the vector or buffer.
pub struct DecoderStream<'a> {
    target: Sink<'a>,
    input: Vec<u8>,
    format: Format,
    /// The decoded output and checksum, once the input holds a complete
    /// bitstream.
    done: Option<(Vec<u8>, Option<u32>)>,
}

impl<'a> DecoderStream<'a> {
    /// What the stream has decoded is what the input written so far gives.
    #[verifier::type_invariant]
    spec fn decoded_matches_input(&self) -> bool {
        self.done matches Some((out, sum)) ==> decompressed(self.input@, self.format) == Ok::<
            (Seq<u8>, Option<u32>),
            Error,
        >((out@, sum))
    }

    /// Whether the input written so far holds a complete bitstream.
    pub closed spec fn complete(&self) -> bool {
        self.done is Some
    }

    /// The compressed bytes written so far.
    pub closed spec fn pending(&self) -> Seq<u8> {
        self.input@
    }

    /// The format the stream decodes.
    pub closed spec fn format_spec(&self) -> Format {
        self.format
    }

    /// Whether the output goes to a vector (otherwise to a buffer).
    pub closed spec fn writes_to_vec(&self) -> bool {
        self.target is Vec
    }

    /// The vector the output goes to, when it goes to one.
    pub closed spec fn vec_sink(&self) -> &'a mut Vec<u8> {
        match self.target {
            Sink::Vec(v) => v,
            Sink::Buf(_) => arbitrary(),
        }
    }

    /// The buffer the output goes to, when it goes to one.
    pub closed spec fn buf_sink(&self) -> &'a mut [u8] {
        match self.target {
            Sink::Buf(b) => b,
            Sink::Vec(_) => arbitrary(),
        }
    }

    /// The content of the vector or buffer while the stream holds it.
    pub closed spec fn target_before(&self) -> Seq<u8> {
        match self.target {
            Sink::Vec(v) => v@,
            Sink::Buf(b) => b@,
        }
    }

    /// Writes compressed bytes into the stream and decodes what has been
    /// written so far. Once the bitstream is complete, a write is refused
    /// with `Finished` and its bytes are not taken. Otherwise the bytes are
    /// taken; a corrupt bitstream gives its error, and a bitstream that is
    /// complete now, or still needs more input, gives `Ok`.
    pub fn write(&mut self, buf: &[u8]) -> (r: Result<(), Error>)
        ensures
            final(self).format_spec() == old(self).format_spec(),
            final(self).writes_to_vec() == old(self).writes_to_vec(),
            final(self).vec_sink() == old(self).vec_sink(),
            final(self).buf_sink() == old(self).buf_sink(),
            final(self).target_before() == old(self).target_before(),
            old(self).complete() ==> (r matches Err(e) && e is Finished && final(self).pending()
                == old(self).pending() && final(self).complete()),
            !old(self).complete() ==> final(self).pending() == old(self).pending() + buf@ && match decompressed(
                final(self).pending(),
                old(self).format_spec(),
            ) {
                Ok(_) => r is Ok && final(self).complete(),
                Err(e) => !final(self).complete() && (e is Underflow ==> r is Ok) && (!(
                e is Underflow) ==> (r matches Err(e2) && e2 == e)),
            },
    {
        if self.done.is_some() {
            return Err(Error::Finished);
        }
        let mut input: Vec<u8> = self.input.clone();
        assert(input@ =~= self.input@);
        let mut i: usize = 0;
        while i < buf.len()
            invariant
                i <= buf@.len(),
                input@ == old(self).input@ + buf@.take(i as int),
            decreases buf@.len() - i,
        {
            input.push(buf[i]);
            assert(buf@.take(i + 1) =~= buf@.take(i as int).push(buf@[i as int]));
            i = i + 1;
        }
        assert(buf@.take(buf@.len() as int) =~= buf@);
        self.input = input;
        match decompress_bytes(&self.input, self.format) {
            Ok(decoded) => {
                self.done = Some(decoded);
                Ok(())
            },
            Err(Error::Underflow) => Ok(()),
            Err(e) => Err(e),
        }
    }

    /// Decodes everything written and delivers the output: appended to the
    /// vector, or copied to the start of the buffer when it fits
    /// (`Overflow` otherwise). Gives the number of decompressed bytes with,
    /// for zlib, the checksum that the stream's footer records. On an error
    /// the vector or buffer is left as it was.
    pub fn finish(self) -> (r: Result<(u64, Option<u32>), Error>)
        ensures
            match decompressed(self.pending(), self.format_spec()) {
                Ok((out, sum)) => if self.writes_to_vec() {
                    r matches Ok((n, s)) && n == out.len() && s == sum
                        && final(self.vec_sink())@ == self.target_before() + out
                } else if out.len() <= self.target_before().len() {
                    r matches Ok((n, s)) && n == out.len() && s == sum
                        && final(self.buf_sink())@ == out + self.target_before().skip(
                        out.len() as int,
                    )
                } else {
                    r matches Err(e) && e is Overflow && final(self.buf_sink())@
                        == self.target_before()
                },
                Err(e) => r matches Err(e2) && e2 == e && (if self.writes_to_vec() {
                    final(self.vec_sink())@
                } else {
                    final(self.buf_sink())@
                }) == self.target_before(),
            },
    {
        proof {
            use_type_invariant(&self);
        }
        let s = self;
        let decoded = match s.done {
            Some(d) => Ok(d),
            None => decompress_bytes(&s.input, s.format),
        };
        match s.target {
            Sink::Vec(v) => match decoded {
                Ok((out, sum)) => {
                    append_to_vec(v, &out);
                    Ok((out.len() as u64, sum))
                },
                Err(e) => Err(e),
            },
            Sink::Buf(b) => match decoded {
                Ok((out, sum)) => {
                    if copy_to_buf(b, &out) {
                        Ok((out.len() as u64, sum))
                    } else {
                        Err(Error::Overflow)
                    }
                },
                Err(e) => Err(e),
            },
        }
    }
}

/// RFC 1950's header rule, read bit by bit: a zlib header is accepted
/// exactly when there are two bytes, the low four bits of the first (CM)
/// are 8, its high four bits (CINFO, the window size) are at most 7, the two
/// bytes read as a big-endian number are a multiple of 31, and bit 5 of the
/// second (FDICT) is clear; every window size from 0 to 7 is accepted.
pub proof fn lemma_zlib_header_rule(input: Seq<u8>)
    ensures
        zlib_header_error(input) is None <==> input.len() >= 2 && input[0] & 0x0Fu8 == 8
            && input[0] >> 4u8 <= 7 && (input[0] * 256 + input[1]) % 31 == 0 && input[1] & 0x20u8
            == 0,
        input.len() < 2 ==> zlib_header_error(input) == Some(Error::Underflow),
        input.len() >= 2 && zlib_header_error(input) is Some ==> zlib_header_error(input) == Some(
            Error::InvalidBitstream,
        ) && decompressed(input, Format::Zlib) == Err::<(Seq<u8>, Option<u32>), Error>(
            Error::InvalidBitstream,
        ),
{
    if input.len() >= 2 {
        let cmf = input[0];
        let flg = input[1];
        assert(cmf & 0x0Fu8 == cmf % 16) by (bit_vector);
        assert(cmf >> 4u8 == cmf / 16) by (bit_vector);
        assert((flg & 0x20u8 == 0) == ((flg / 32) % 2 == 0)) by (bit_vector);
    }
}

/// A zlib stream with an accepted header holds DEFLATE data from its third
/// byte on; after the last block, at the first whole byte, come four bytes
/// that give the checksum, most significant first, and what follows them is
/// not read.
pub proof fn lemma_zlib_footer(input: Seq<u8>, q: int, out: Seq<u8>, b: int)
    requires
        zlib_header_error(input) is None,
        inflate_blocks(input, 16, Seq::empty()) == Ok::<(int, Seq<u8>), Error>((q, out)),
        q <= 8 * b < q + 8,
    ensures
        b + 4 <= input.len() ==> decompressed(input, Format::Zlib) == Ok::<
            (Seq<u8>, Option<u32>),
            Error,
        >((out, Some((input[b] * 16777216 + input[b + 1] * 65536 + input[b + 2] * 256 + input[b
            + 3]) as u32))),
        b + 4 > input.len() ==> decompressed(input, Format::Zlib) == Err::<
            (Seq<u8>, Option<u32>),
            Error,
        >(Error::Underflow),
{
    assert((q + 7) / 8 == b);
}

} // verus!
