//! Compression: DEFLATE bitstreams (RFC 1951) in raw form or inside the zlib
//! wrapper (RFC 1950), the one-shot `compress`, and the reusable `Encoder`
//! with its streams.
use vstd::prelude::*;
use crate::adler32::{adler32, Adler32};
use crate::bitwriter::{holds_bits, lemma_packed, packed};
use crate::fixed::{fixed_block_bits, write_fixed_block};
use crate::dynamic::{
    dynamic_block_bits, dynamic_block_ok, plan_clens, plan_dist, plan_dynamic, plan_lit, plan_ops,
    write_dynamic_block, LengthOp,
};
use crate::lz77::{
    find_tokens, lemma_replay_fits, literal_allowed, match_allowed, match_dist, parse_from, replay,
    token_start,
    Token,
};
use crate::{append_to_vec, copy_to_buf, Error, Format, Sink};

verus! {

/// The compression level: how much effort goes into making the output small.
/// Level 0 stores the data; levels 1 to 3 look at one earlier position for
/// each match, 4 to 6 at up to 32, and 7 to 10 at up to 256.
#[derive(Copy, Clone, PartialEq, Eq, Structural, Debug)]
pub enum CompressionLevel {
    /// No compression: the data is stored as it is (level 0).
    NoCompression,
    /// Fastest compression (level 1).
    BestSpeed,
    /// A balance of speed and size (level 6).
    Default,
    /// Smallest output (level 9).
    BestSize,
    /// A level between 1 and 10; larger values count as 10.
    Specific(u8),
}

/// The kind of blocks the encoder produces.
#[derive(Copy, Clone, PartialEq, Eq, Structural, Debug)]
pub enum CompressionStrategy {
    /// The encoder picks the block kind.
    Default,
    /// Matches are only searched at distance 1 (runs of one byte).
    RLE,
    /// Only blocks coded with the fixed Huffman code.
    Static,
}

/// The longest data a stored block holds.
pub const MAX_STORED_LEN: usize = 65535;

/// The numeric level, from 0 to 10.
pub open spec fn level_number(level: CompressionLevel) -> int {
    match level {
        CompressionLevel::NoCompression => 0,
        CompressionLevel::BestSpeed => 1,
        CompressionLevel::Default => 6,
        CompressionLevel::BestSize => 9,
        CompressionLevel::Specific(n) => if n > 10 {
            10
        } else {
            n as int
        },
    }
}

/// The second zlib header byte for a level: its level class and check bits.
pub open spec fn zlib_flags(level: CompressionLevel) -> u8 {
    let n = level_number(level);
    if n <= 1 {
        0x01
    } else if n <= 5 {
        0x5e
    } else if n == 6 {
        0x9c
    } else {
        0xda
    }
}

/// A stored block holding `chunk`: a header byte with the last-block flag
/// and block type 0, the length and its complement, two bytes each with the
/// least significant first, then the bytes.
pub open spec fn stored_block_bytes(chunk: Seq<u8>, last: bool) -> Seq<u8> {
    let n = chunk.len() as int;
    seq![
        if last {
            1u8
        } else {
            0u8
        },
        (n % 256) as u8,
        (n / 256) as u8,
        ((65535 - n) % 256) as u8,
        ((65535 - n) / 256) as u8,
    ] + chunk
}

/// `data` as stored blocks of at most 65535 bytes, the last one flagged.
pub open spec fn stored_stream(data: Seq<u8>) -> Seq<u8>
    decreases data.len(),
{
    if data.len() <= MAX_STORED_LEN {
        stored_block_bytes(data, true)
    } else {
        stored_block_bytes(data.take(MAX_STORED_LEN as int), false) + stored_stream(
            data.skip(MAX_STORED_LEN as int),
        )
    }
}

/// How many stored blocks `stored_stream` uses for `n` bytes.
pub open spec fn stored_blocks(n: nat) -> nat
    decreases n,
{
    if n <= MAX_STORED_LEN {
        1
    } else {
        1 + stored_blocks((n - MAX_STORED_LEN) as nat)
    }
}

/// Stored blocks take five header bytes each besides the data.
pub proof fn lemma_stored_stream_len(data: Seq<u8>)
    ensures
        stored_stream(data).len() == data.len() + 5 * stored_blocks(data.len()),
    decreases data.len(),
{
    if data.len() > MAX_STORED_LEN {
        lemma_stored_stream_len(data.skip(MAX_STORED_LEN as int));
    }
}

/// The block count in closed form.
proof fn lemma_stored_blocks(n: nat)
    ensures
        stored_blocks(n) == if n == 0 {
            1
        } else {
            (n - 1) / (MAX_STORED_LEN as int) + 1
        },
    decreases n,
{
    if n > MAX_STORED_LEN {
        lemma_stored_blocks((n - MAX_STORED_LEN) as nat);
    }
}

/// `stream` is one final block coded with the fixed code whose tokens
/// replay to `data`; with `runs_only`, every match repeats the byte before it.
pub open spec fn is_fixed_stream(stream: Seq<u8>, data: Seq<u8>, runs_only: bool) -> bool {
    exists|tokens: Seq<Token>|
        #[trigger] replay(Seq::empty(), tokens) == Some(data) && holds_bits(
            stream,
            fixed_block_bits(tokens, true),
        ) && (runs_only ==> forall|k: int|
            0 <= k < tokens.len() && (#[trigger] tokens[k]) is Match ==> match_dist(tokens[k])
                == 1)
}

/// `stream` is one final dynamic block whose tokens replay to `data`, with
/// code tables the decoder accepts; with `runs_only`, every match repeats
/// the byte before it.
pub open spec fn is_dynamic_stream(stream: Seq<u8>, data: Seq<u8>, runs_only: bool) -> bool {
    exists|tokens: Seq<Token>, lit: Seq<u8>, dist: Seq<u8>, clens: Seq<u8>, ops: Seq<LengthOp>|
        #[trigger] dynamic_block_ok(tokens, lit, dist, clens, ops) && replay(
            Seq::empty(),
            tokens,
        ) == Some(data) && holds_bits(
            stream,
            dynamic_block_bits(tokens, lit, dist, clens, ops, true),
        )
            && (runs_only ==> forall|k: int|
            0 <= k < tokens.len() && (#[trigger] tokens[k]) is Match ==> match_dist(tokens[k])
                == 1)
}

/// How many earlier positions the match search tries at each position for
/// a level.
pub open spec fn search_chain(level: CompressionLevel) -> int {
    let n = level_number(level);
    if n <= 3 {
        1
    } else if n <= 6 {
        32
    } else {
        256
    }
}

/// `tokens` is a parse of `data` the match search may give: it replays to
/// `data`; with `runs_only` every match repeats the previous byte; a
/// literal stands only where `literal_allowed` lets it, and no match is
/// shorter than the run of the byte before it.
pub open spec fn found_tokens(data: Seq<u8>, tokens: Seq<Token>, runs_only: bool, chain: int) -> bool {
    &&& replay(Seq::empty(), tokens) == Some(data)
    &&& runs_only ==> forall|k: int|
        0 <= k < tokens.len() && (#[trigger] tokens[k]) is Match ==> match_dist(tokens[k]) == 1
    &&& forall|k: int|
        0 <= k < tokens.len() && (#[trigger] tokens[k]) is Literal ==> literal_allowed(
            data,
            token_start(tokens, k),
            runs_only,
            chain,
        )
    &&& forall|k: int|
        0 <= k < tokens.len() && (#[trigger] tokens[k]) is Match ==> match_allowed(
            data,
            token_start(tokens, k),
            tokens[k],
            runs_only,
            chain,
        )
}

/// The number of bytes that hold `bits`.
pub open spec fn byte_len(bits: Seq<bool>) -> int {
    (bits.len() as int + 7) / 8
}

/// `stream` is no longer than the block coded with the fixed code, nor than
/// the block coded with the code planned for it (`plan_dynamic`), of one
/// parse the match search may give for `data`.
pub open spec fn no_longer_than_coded(
    stream: Seq<u8>,
    data: Seq<u8>,
    runs_only: bool,
    chain: int,
) -> bool {
    exists|tokens: Seq<Token>|
        #[trigger] found_tokens(data, tokens, runs_only, chain) && stream.len() <= byte_len(
            fixed_block_bits(tokens, true),
        ) && stream.len() <= byte_len(
            dynamic_block_bits(
                tokens,
                plan_lit(tokens),
                plan_dist(tokens),
                plan_clens(tokens),
                plan_ops(tokens),
                true,
            ),
        )
}

/// The raw DEFLATE stream the encoder produces for `data`: stored blocks
/// at level 0; otherwise, for the match search's tokens (`parse_from`), the
/// block coded with the fixed code under the static strategy, and else the
/// shortest of that block, the block coded with the code `plan_dynamic`
/// builds (taken only when shorter than the fixed one), and stored blocks
/// (taken only when shorter than both).
pub open spec fn deflate_spec(
    data: Seq<u8>,
    level: CompressionLevel,
    strategy: CompressionStrategy,
) -> Seq<u8> {
    if level_number(level) == 0 {
        stored_stream(data)
    } else {
        let tokens = parse_from(
            data,
            strategy == CompressionStrategy::RLE,
            search_chain(level),
            0,
        );
        let fixed = packed(fixed_block_bits(tokens, true));
        if strategy == CompressionStrategy::Static {
            fixed
        } else {
            let dynamic = packed(
                dynamic_block_bits(
                    tokens,
                    plan_lit(tokens),
                    plan_dist(tokens),
                    plan_clens(tokens),
                    plan_ops(tokens),
                    true,
                ),
            );
            let coded = if dynamic.len() < fixed.len() {
                dynamic
            } else {
                fixed
            };
            if stored_stream(data).len() < coded.len() {
                stored_stream(data)
            } else {
                coded
            }
        }
    }
}

/// The bitstream the encoder produces for `data` in `format`: the raw
/// stream, or for zlib the same inside the two-byte header and the
/// big-endian Adler-32 checksum of the data.
pub open spec fn encoded_spec(
    data: Seq<u8>,
    format: Format,
    level: CompressionLevel,
    strategy: CompressionStrategy,
) -> Seq<u8> {
    match format {
        Format::Raw => deflate_spec(data, level, strategy),
        Format::Zlib => seq![0x78u8, zlib_flags(level)] + deflate_spec(data, level, strategy)
            + be32_bytes(adler32(data)),
    }
}

/// `stream` is the block coded with the fixed code of a parse the match
/// search may give for `data`.
pub open spec fn is_found_fixed_stream(stream: Seq<u8>, data: Seq<u8>, chain: int) -> bool {
    exists|tokens: Seq<Token>|
        #[trigger] found_tokens(data, tokens, false, chain) && holds_bits(
            stream,
            fixed_block_bits(tokens, true),
        )
}

/// `stream` is a raw DEFLATE stream the encoder may produce for `data`:
/// stored blocks at level 0; under the static strategy, the block coded
/// with the fixed code of the match search's parse; otherwise no longer
/// than stored blocks, than that block, and than the block of the same
/// parse coded with the code `plan_dynamic` builds from its symbol
/// frequencies, and one of these kinds of block (matches only repeat the
/// previous byte under the RLE strategy).
pub open spec fn is_deflate_stream(
    stream: Seq<u8>,
    data: Seq<u8>,
    level: CompressionLevel,
    strategy: CompressionStrategy,
) -> bool {
    if level_number(level) == 0 {
        stream == stored_stream(data)
    } else if strategy == CompressionStrategy::Static {
        is_fixed_stream(stream, data, false) && is_found_fixed_stream(
            stream,
            data,
            search_chain(level),
        )
    } else {
        stream.len() <= stored_stream(data).len() && no_longer_than_coded(
            stream,
            data,
            strategy == CompressionStrategy::RLE,
            search_chain(level),
        ) && (stream == stored_stream(data) || is_fixed_stream(
            stream,
            data,
            strategy == CompressionStrategy::RLE,
        ) || is_dynamic_stream(stream, data, strategy == CompressionStrategy::RLE))
    }
}

/// The four bytes of `x`, most significant first.
pub open spec fn be32_bytes(x: u32) -> Seq<u8> {
    seq![
        (x / 16777216) as u8,
        ((x / 65536) % 256) as u8,
        ((x / 256) % 256) as u8,
        (x % 256) as u8,
    ]
}

/// `out` is a bitstream the encoder may produce for `data`: a raw DEFLATE
/// stream, or for zlib the same inside a two-byte header and the big-endian
/// Adler-32 checksum of the data.
pub open spec fn is_compressed(
    out: Seq<u8>,
    data: Seq<u8>,
    format: Format,
    level: CompressionLevel,
    strategy: CompressionStrategy,
) -> bool {
    match format {
        Format::Raw => is_deflate_stream(out, data, level, strategy),
        Format::Zlib => exists|stream: Seq<u8>|
            #[trigger] is_deflate_stream(stream, data, level, strategy) && out == seq![
                0x78u8,
                zlib_flags(level),
            ] + stream + be32_bytes(adler32(data)),
    }
}

/// The length of `data` in stored blocks, with the zlib header and footer
/// for zlib.
pub open spec fn stored_bound(data: Seq<u8>, format: Format) -> int {
    stored_stream(data).len() + match format {
        Format::Raw => 0int,
        Format::Zlib => 6int,
    }
}

/// Except for blocks forced to the fixed code, what the encoder produces is
/// never longer than the data in stored blocks.
pub proof fn lemma_never_longer_than_stored(
    out: Seq<u8>,
    data: Seq<u8>,
    format: Format,
    level: CompressionLevel,
    strategy: CompressionStrategy,
)
    requires
        is_compressed(out, data, format, level, strategy),
        level_number(level) == 0 || strategy != CompressionStrategy::Static,
    ensures
        out.len() <= stored_bound(data, format),
{
    match format {
        Format::Raw => {},
        Format::Zlib => {
            let stream = choose|stream: Seq<u8>|
                #[trigger] is_deflate_stream(stream, data, level, strategy) && out == seq![
                    0x78u8,
                    zlib_flags(level),
                ] + stream + be32_bytes(adler32(data));
            assert(out.len() == stream.len() + 6);
        },
    }
}

/// Appends the bytes of `src` from `start` to `end` to `out`.
fn append_range(out: &mut Vec<u8>, src: &[u8], start: usize, end: usize)
    requires
        start <= end <= src@.len(),
    ensures
        final(out)@ == old(out)@ + src@.subrange(start as int, end as int),
{
    let mut i: usize = start;
    while i < end
        invariant
            start <= i <= end <= src@.len(),
            out@ == old(out)@ + src@.subrange(start as int, i as int),
        decreases end - i,
    {
        out.push(src[i]);
        assert(src@.subrange(start as int, i + 1) =~= src@.subrange(start as int, i as int).push(
            src@[i as int],
        ));
        i = i + 1;
    }
}

/// Appends a stored block holding `data[start..end]`.
fn write_stored_block(out: &mut Vec<u8>, data: &[u8], start: usize, end: usize, last: bool)
    requires
        start <= end <= data@.len(),
        end - start <= MAX_STORED_LEN,
    ensures
        final(out)@ == old(out)@ + stored_block_bytes(
            data@.subrange(start as int, end as int),
            last,
        ),
{
    let n = end - start;
    let nlen = 65535 - n;
    out.push(if last {
        1
    } else {
        0
    });
    out.push((n % 256) as u8);
    out.push((n / 256) as u8);
    out.push((nlen % 256) as u8);
    out.push((nlen / 256) as u8);
    append_range(out, data, start, end);
    assert(out@ =~= old(out)@ + stored_block_bytes(data@.subrange(start as int, end as int), last));
}

/// Appends `data` as stored blocks, as `stored_stream` states.
fn write_stored_stream(out: &mut Vec<u8>, data: &[u8])
    ensures
        final(out)@ == old(out)@ + stored_stream(data@),
{
    let len = data.len();
    let mut i: usize = 0;
    assert(data@.skip(0) =~= data@);
    loop
        invariant
            i <= len == data@.len(),
            out@ + stored_stream(data@.skip(i as int)) == old(out)@ + stored_stream(data@),
        decreases len - i,
    {
        let ghost before = out@;
        if len - i <= MAX_STORED_LEN {
            write_stored_block(out, data, i, len, true);
            assert(data@.subrange(i as int, len as int) =~= data@.skip(i as int));
            return;
        }
        write_stored_block(out, data, i, i + MAX_STORED_LEN, false);
        assert(data@.subrange(i as int, i + MAX_STORED_LEN) =~= data@.skip(i as int).take(
            MAX_STORED_LEN as int,
        ));
        assert(data@.skip(i as int).skip(MAX_STORED_LEN as int) =~= data@.skip(
            i + MAX_STORED_LEN,
        ));
        assert(out@ + stored_stream(data@.skip(i + MAX_STORED_LEN)) =~= before + stored_stream(
            data@.skip(i as int),
        ));
        i = i + MAX_STORED_LEN;
    }
}

/// Whether stored blocks for `n` bytes, five header bytes for each block of
/// up to 65535 bytes, would be shorter than `coded` bytes.
fn stored_is_shorter(n: usize, coded: usize) -> (r: bool)
    ensures
        r == (n + 5 * stored_blocks(n as nat) < coded),
{
    proof {
        lemma_stored_blocks(n as nat);
    }
    if coded <= n {
        false
    } else {
        let blocks = if n == 0 {
            1
        } else {
            (n - 1) / MAX_STORED_LEN + 1
        };
        blocks < (coded - n) / 5 || (blocks == (coded - n) / 5 && (coded - n) % 5 != 0)
    }
}

/// The numeric level.
fn level_value(level: CompressionLevel) -> (r: u8)
    ensures
        r == level_number(level),
{
    match level {
        CompressionLevel::NoCompression => 0,
        CompressionLevel::BestSpeed => 1,
        CompressionLevel::Default => 6,
        CompressionLevel::BestSize => 9,
        CompressionLevel::Specific(n) => if n > 10 {
            10
        } else {
            n
        },
    }
}

/// A raw DEFLATE stream for `data`: stored blocks at level 0; otherwise
/// the tokens of a greedy LZ77 search, coded in one block with the fixed
/// code or (except under the static strategy) with a code built from their
/// frequencies, or stored blocks, whichever is shortest.
fn deflate_bytes(data: &[u8], level: CompressionLevel, strategy: CompressionStrategy) -> (r: Vec<
    u8,
>)
    ensures
        is_deflate_stream(r@, data@, level, strategy),
        r@ == deflate_spec(data@, level, strategy),
{
    if level_value(level) == 0 {
        let mut out: Vec<u8> = Vec::new();
        write_stored_stream(&mut out, data);
        assert(out@ =~= stored_stream(data@));
        out
    } else {
        let runs_only = match strategy {
            CompressionStrategy::RLE => true,
            _ => false,
        };
        let n = level_value(level);
        let chain: usize = if n <= 3 {
            1
        } else if n <= 6 {
            32
        } else {
            256
        };
        let tokens = find_tokens(data, runs_only, chain);
        proof {
            lemma_replay_fits(Seq::empty(), tokens@);
            assert(chain == search_chain(level));
            assert(runs_only == (strategy == CompressionStrategy::RLE));
        }
        let out = write_fixed_block(&tokens);
        assert(replay(Seq::empty(), tokens@) == Some(data@));
        assert(found_tokens(data@, tokens@, runs_only, chain as int));
        proof {
            lemma_holds_bits_len(out@, fixed_block_bits(tokens@, true));
        }
        let forced = match strategy {
            CompressionStrategy::Static => true,
            _ => false,
        };
        if forced {
            assert(is_fixed_stream(out@, data@, false));
            assert(is_found_fixed_stream(out@, data@, search_chain(level)));
            return out;
        }
        let fixed_len = out.len();
        let mut out = out;
        match plan_dynamic(&tokens) {
            Some((lit, dist, clens, ops)) => {
                let dynamic = write_dynamic_block(&tokens, &lit, &dist, &clens, &ops);
                proof {
                    lemma_holds_bits_len(
                        dynamic@,
                        dynamic_block_bits(
                            tokens@,
                            lit.lengths_spec(),
                            dist.lengths_spec(),
                            clens.lengths_spec(),
                            ops@,
                            true,
                        ),
                    );
                }
                assert(dynamic_block_ok(
                    tokens@,
                    lit.lengths_spec(),
                    dist.lengths_spec(),
                    clens.lengths_spec(),
                    ops@,
                ));
                if dynamic.len() < out.len() {
                    out = dynamic;
                }
                assert(no_longer_than_coded(out@, data@, runs_only, chain as int));
            },
            None => {
                return out;
            },
        }
        proof {
            lemma_stored_stream_len(data@);
        }
        if stored_is_shorter(data.len(), out.len()) {
            let mut stored: Vec<u8> = Vec::new();
            write_stored_stream(&mut stored, data);
            assert(stored@ =~= stored_stream(data@));
            return stored;
        }
        out
    }
}

/// Bytes that hold some bits are as many as the bits need.
proof fn lemma_holds_bits_len(bytes: Seq<u8>, bits: Seq<bool>)
    requires
        holds_bits(bytes, bits),
    ensures
        bytes.len() == byte_len(bits),
{
}

/// The second zlib header byte for `level`.
fn zlib_flags_for(level: CompressionLevel) -> (r: u8)
    ensures
        r == zlib_flags(level),
{
    let n: u8 = match level {
        CompressionLevel::NoCompression => 0,
        CompressionLevel::BestSpeed => 1,
        CompressionLevel::Default => 6,
        CompressionLevel::BestSize => 9,
        CompressionLevel::Specific(n) => if n > 10 {
            10
        } else {
            n
        },
    };
    if n <= 1 {
        0x01
    } else if n <= 5 {
        0x5e
    } else if n == 6 {
        0x9c
    } else {
        0xda
    }
}

/// A bitstream for `data` in `format`.
fn compressed_bytes(
    data: &[u8],
    format: Format,
    level: CompressionLevel,
    strategy: CompressionStrategy,
) -> (r: Vec<u8>)
    ensures
        is_compressed(r@, data@, format, level, strategy),
        r@ == encoded_spec(data@, format, level, strategy),
{
    let stream = deflate_bytes(data, level, strategy);
    match format {
        Format::Raw => stream,
        Format::Zlib => {
            let mut out: Vec<u8> = Vec::new();
            out.push(0x78);
            out.push(zlib_flags_for(level));
            append_range(&mut out, stream.as_slice(), 0, stream.len());
            let sum = Adler32::from_buf(data).finish();
            out.push((sum / 16777216) as u8);
            out.push(((sum / 65536) % 256) as u8);
            out.push(((sum / 256) % 256) as u8);
            out.push((sum % 256) as u8);
            assert(stream@.subrange(0, stream@.len() as int) =~= stream@);
            assert(out@ =~= seq![0x78u8, zlib_flags(level)] + stream@ + be32_bytes(adler32(data@)));
            out
        },
    }
}

/// Compresses a buffer into a bitstream of the given format.
pub fn compress(buf: &[u8], format: Format, level: CompressionLevel) -> (r: Result<Vec<u8>, Error>)
    ensures
        r matches Ok(v) && is_compressed(v@, buf@, format, level, CompressionStrategy::Default),
        r matches Ok(v) && v@.len() <= stored_bound(buf@, format),
        r matches Ok(v) && v@ == encoded_spec(buf@, format, level, CompressionStrategy::Default),
{
    let v = compressed_bytes(buf, format, level, CompressionStrategy::Default);
    proof {
        lemma_never_longer_than_stored(v@, buf@, format, level, CompressionStrategy::Default);
    }
    Ok(v)
}

/// Stateful context for compression.
pub struct Encoder {
    format: Format,
    level: CompressionLevel,
    strategy: CompressionStrategy,
}

impl Encoder {
    /// The format of the bitstreams this encoder writes.
    pub closed spec fn format_spec(&self) -> Format {
        self.format
    }

    /// The compression level.
    pub closed spec fn level_spec(&self) -> CompressionLevel {
        self.level
    }

    /// The compression strategy.
    pub closed spec fn strategy_spec(&self) -> CompressionStrategy {
        self.strategy
    }

    /// Creates a new encoder for raw DEFLATE output with the default level
    /// and strategy.
    pub fn new() -> (r: Self)
        ensures
            r.format_spec() == Format::Raw,
            r.level_spec() == CompressionLevel::Default,
            r.strategy_spec() == CompressionStrategy::Default,
    {
        Encoder {
            format: Format::Raw,
            level: CompressionLevel::Default,
            strategy: CompressionStrategy::Default,
        }
    }

    /// Creates a new encoder on the heap.
    pub fn boxed() -> (r: Box<Self>)
        ensures
            r.format_spec() == Format::Raw,
            r.level_spec() == CompressionLevel::Default,
            r.strategy_spec() == CompressionStrategy::Default,
    {
        Box::new(Self::new())
    }

    /// Sets the format of the output bitstream.
    pub fn set_format(&mut self, format: Format)
        ensures
            final(self).format_spec() == format,
            final(self).level_spec() == old(self).level_spec(),
            final(self).strategy_spec() == old(self).strategy_spec(),
    {
        self.format = format;
    }

    /// Sets the compression level.
    pub fn set_level(&mut self, level: CompressionLevel)
        ensures
            final(self).format_spec() == old(self).format_spec(),
            final(self).level_spec() == level,
            final(self).strategy_spec() == old(self).strategy_spec(),
    {
        self.level = level;
    }

    /// Sets the compression strategy.
    pub fn set_strategy(&mut self, strategy: CompressionStrategy)
        ensures
            final(self).format_spec() == old(self).format_spec(),
            final(self).level_spec() == old(self).level_spec(),
            final(self).strategy_spec() == strategy,
    {
        self.strategy = strategy;
    }

    /// Creates a stream that compresses into the given vector.
    pub fn stream_into_vec<'a>(&mut self, vec: &'a mut Vec<u8>) -> (r: EncoderStream<'a>)
        ensures
            *final(self) == *old(self),
            r.format_spec() == old(self).format_spec(),
            r.level_spec() == old(self).level_spec(),
            r.strategy_spec() == old(self).strategy_spec(),
            r.pending() == Seq::<u8>::empty(),
            r.writes_to_vec(),
            r.target_before() == old(vec)@,
            final(vec)@ == final(r.vec_sink())@,
    {
        EncoderStream {
            target: Sink::Vec(vec),
            input: Vec::new(),
            format: self.format,
            level: self.level,
            strategy: self.strategy,
        }
    }

    /// Creates a stream that compresses into the given buffer, from its
    /// start.
    pub fn stream_into_buf<'a>(&mut self, buf: &'a mut [u8]) -> (r: EncoderStream<'a>)
        ensures
            *final(self) == *old(self),
            r.format_spec() == old(self).format_spec(),
            r.level_spec() == old(self).level_spec(),
            r.strategy_spec() == old(self).strategy_spec(),
            r.pending() == Seq::<u8>::empty(),
            !r.writes_to_vec(),
            r.target_before() == old(buf)@,
            final(buf)@ == final(r.buf_sink())@,
    {
        EncoderStream {
            target: Sink::Buf(buf),
            input: Vec::new(),
            format: self.format,
            level: self.level,
            strategy: self.strategy,
        }
    }
}

impl Default for Encoder {
    /// An encoder for raw DEFLATE output with the default level and
    /// strategy, as `new` gives it.
    fn default() -> (r: Self)
        ensures
            r.format_spec() == Format::Raw,
            r.level_spec() == CompressionLevel::Default,
            r.strategy_spec() == CompressionStrategy::Default,
    {
        Self::new()
    }
}

/// Compression stream that writes into a vector or a buffer. Input is
/// gathered by `write`; `finish` compresses it and delivers the bitstream.
/// The stream keeps all of its input in memory until `finish`, and nothing
/// reaches the vector or buffer before then.
pub struct EncoderStream<'a> {
    target: Sink<'a>,
    input: Vec<u8>,
    format: Format,
    level: CompressionLevel,
    strategy: CompressionStrategy,
}

impl<'a> EncoderStream<'a> {
    /// The bytes written so far.
    pub closed spec fn pending(&self) -> Seq<u8> {
        self.input@
    }

    /// The format of the output.
    pub closed spec fn format_spec(&self) -> Format {
        self.format
    }

    /// The compression level.
    pub closed spec fn level_spec(&self) -> CompressionLevel {
        self.level
    }

    /// The compression strategy.
    pub closed spec fn strategy_spec(&self) -> CompressionStrategy {
        self.strategy
    }

    /// Whether the output goes to a vector (otherwise to a buffer).
    pub closed spec fn writes_to_vec(&self) -> bool {
        self.target is Vec
    }

    /// The vector the output goes to, when it goes to one.
    pub closed spec fn vec_sink(&self) -> &'a mut Vec<u8> {
        match self.target {
            Sink::Vec(v) => v,
            Sink::Buf(_) => arbitrary(),
        }
    }

    /// The buffer the output goes to, when it goes to one.
    pub closed spec fn buf_sink(&self) -> &'a mut [u8] {
        match self.target {
            Sink::Buf(b) => b,
            Sink::Vec(_) => arbitrary(),
        }
    }

    /// The content of the vector or buffer while the stream holds it.
    pub closed spec fn target_before(&self) -> Seq<u8> {
        match self.target {
            Sink::Vec(v) => v@,
            Sink::Buf(b) => b@,
        }
    }

    /// Whether `c` is a valid output for everything written so far, under the
    /// stream's settings.
    pub open spec fn compresses_to(&self, c: Seq<u8>) -> bool {
        is_compressed(c, self.pending(), self.format_spec(), self.level_spec(), self.strategy_spec())
    }

    /// The bitstream `finish` produces for what was written.
    pub open spec fn output(&self) -> Seq<u8> {
        encoded_spec(self.pending(), self.format_spec(), self.level_spec(), self.strategy_spec())
    }

    /// Writes bytes into the stream: they are kept until `finish`, and
    /// writing never fails.
    pub fn write(&mut self, buf: &[u8]) -> (r: Result<(), Error>)
        ensures
            r is Ok,
            final(self).pending() == old(self).pending() + buf@,
            final(self).format_spec() == old(self).format_spec(),
            final(self).level_spec() == old(self).level_spec(),
            final(self).strategy_spec() == old(self).strategy_spec(),
            final(self).writes_to_vec() == old(self).writes_to_vec(),
            final(self).vec_sink() == old(self).vec_sink(),
            final(self).buf_sink() == old(self).buf_sink(),
            final(self).target_before() == old(self).target_before(),
    {
        append_range(&mut self.input, buf, 0, buf.len());
        assert(buf@.subrange(0, buf@.len() as int) =~= buf@);
        Ok(())
    }

    /// Compresses everything written and delivers the bitstream: appended to
    /// the vector, or copied to the start of the buffer when it fits
    /// (`Overflow` exactly when the bitstream is longer than the buffer,
    /// leaving the buffer as it was; so never where the buffer could hold the
    /// input in stored blocks, unless the static strategy forces the fixed
    /// code). Gives the number of bytes delivered, the length of `output`.
    pub fn finish(self) -> (r: Result<u64, Error>)
        ensures
            self.writes_to_vec() ==> (r matches Ok(n) && n + self.target_before().len()
                == final(self.vec_sink())@.len() && final(self.vec_sink())@.take(self.target_before().len() as int)
                == self.target_before() && self.compresses_to(
                final(self.vec_sink())@.skip(self.target_before().len() as int),
            )),
            !self.writes_to_vec() ==> {
                match r {
                    Ok(n) => n <= self.target_before().len() && self.compresses_to(
                        final(self.buf_sink())@.take(n as int),
                    ) && final(self.buf_sink())@.skip(n as int) == self.target_before().skip(
                        n as int,
                    ),
                    Err(e) => e is Overflow && final(self.buf_sink())@ == self.target_before(),
                }
            },
            r matches Ok(n) ==> n == self.output().len(),
            self.writes_to_vec() ==> final(self.vec_sink())@ == self.target_before() + self.output(),
            !self.writes_to_vec() ==> (r is Ok <==> self.output().len()
                <= self.target_before().len()),
            !self.writes_to_vec() && r is Ok ==> final(self.buf_sink())@ == self.output()
                + self.target_before().skip(self.output().len() as int),
            !self.writes_to_vec() && (level_number(self.level_spec()) == 0
                || self.strategy_spec() != CompressionStrategy::Static) && stored_bound(
                self.pending(),
                self.format_spec(),
            ) <= self.target_before().len() ==> r is Ok,
    {
        let s = self;
        let out = compressed_bytes(s.input.as_slice(), s.format, s.level, s.strategy);
        match s.target {
            Sink::Vec(v) => {
                let ghost before = v@;
                append_to_vec(v, &out);
                assert(v@.take(before.len() as int) =~= before);
                assert(v@.skip(before.len() as int) =~= out@);
                Ok(out.len() as u64)
            },
            Sink::Buf(b) => {
                let ghost before = b@;
                if copy_to_buf(b, &out) {
                    assert(b@.take(out@.len() as int) =~= out@);
                    Ok(out.len() as u64)
                } else {
                    assert(self.compresses_to(out@));
                    proof {
                        if level_number(self.level_spec()) == 0 || self.strategy_spec()
                            != CompressionStrategy::Static {
                            lemma_never_longer_than_stored(
                                out@,
                                self.pending(),
                                self.format_spec(),
                                self.level_spec(),
                                self.strategy_spec(),
                            );
                        }
                    }
                    Err(Error::Overflow)
                }
            },
        }
    }
}

/// Every level but "no compression" compresses: the encoder's output is
/// never longer than the block coded with the fixed code of its match
/// search's tokens (under the static strategy it is that block), nor,
/// except under the static strategy, than the block coded with the code
/// planned for them; so stored blocks come out only where they are shorter
/// than both.
pub proof fn lemma_levels_compress(
    data: Seq<u8>,
    level: CompressionLevel,
    strategy: CompressionStrategy,
)
    requires
        level != CompressionLevel::NoCompression,
        level != CompressionLevel::Specific(0),
    ensures
        ({
            let tokens = parse_from(
                data,
                strategy == CompressionStrategy::RLE,
                search_chain(level),
                0,
            );
            let fixed = fixed_block_bits(tokens, true);
            let dynamic = dynamic_block_bits(
                tokens,
                plan_lit(tokens),
                plan_dist(tokens),
                plan_clens(tokens),
                plan_ops(tokens),
                true,
            );
            &&& deflate_spec(data, level, strategy).len() <= (fixed.len() + 7) / 8
            &&& strategy != CompressionStrategy::Static ==> deflate_spec(data, level, strategy).len()
                <= (dynamic.len() + 7) / 8
            &&& strategy == CompressionStrategy::Static ==> deflate_spec(data, level, strategy)
                == packed(fixed)
        }),
{
    let tokens = parse_from(data, strategy == CompressionStrategy::RLE, search_chain(level), 0);
    lemma_packed(fixed_block_bits(tokens, true));
    lemma_packed(
        dynamic_block_bits(
            tokens,
            plan_lit(tokens),
            plan_dist(tokens),
            plan_clens(tokens),
            plan_ops(tokens),
            true,
        ),
    );
    assert(level_number(level) != 0);
}

} // verus!
