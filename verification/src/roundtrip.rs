//! What the decoder gives back of what the encoder wrote.
use vstd::prelude::*;
use crate::adler32::adler32;
use crate::bits::{bit_at, bits_value, lemma_bit_index};
use crate::decode::{decompressed, read_be32, zlib_header_error};
use crate::bitwriter::{
    bits_at, holds_bits, lemma_bit_at_concat, lemma_bits_at_split, lemma_read_bits_number,
};
use crate::encode::{
    be32_bytes, is_compressed, is_deflate_stream, is_dynamic_stream, is_fixed_stream,
    stored_block_bytes,
    stored_stream, zlib_flags, CompressionLevel, CompressionStrategy, MAX_STORED_LEN,
};
use crate::fixed::{end_of_block_bits, fixed_block_bits, lemma_fixed_tokens_decode, tokens_bits};
use crate::inflate::{inflate_block, inflate_blocks, stored_block, take_bits};
use crate::lz77::{replay, Token};
use crate::dynamic::{
    coded_tokens_bits, dynamic_block_bits, dynamic_block_ok, dynamic_header_bits,
    lemma_coded_tokens_decode, lemma_dynamic_header_reads, symbol_bits, tables_ok, LengthOp,
};
use crate::Format;

verus! {

/// The first three bits of a byte are its value modulo 8.
proof fn lemma_low_three_bits(input: Seq<u8>, b: int)
    requires
        0 <= b < input.len(),
    ensures
        bits_value(input, 8 * b, 3) == input[b] % 8,
{
    reveal_with_fuel(bits_value, 4);
    lemma_bit_index(b, 0);
    lemma_bit_index(b, 1);
    lemma_bit_index(b, 2);
    assert(8 * b + 1 == b * 8 + 1 && 8 * b + 2 == b * 8 + 2 && 8 * b == b * 8 + 0);
    let x = input[b];
    assert(bit_at(input, 8 * b) == ((x >> 0u8) & 1u8) as int);
    assert(bit_at(input, 8 * b + 1) == ((x >> 1u8) & 1u8) as int);
    assert(bit_at(input, 8 * b + 2) == ((x >> 2u8) & 1u8) as int);
    assert(((x >> 0u8) & 1u8) + 2 * (((x >> 1u8) & 1u8) + 2 * ((x >> 2u8) & 1u8)) == x % 8)
        by (bit_vector);
}

/// A stored block decodes to the bytes it holds, wherever it stands in the
/// input.
proof fn lemma_stored_block_decodes(
    pre: Seq<u8>,
    chunk: Seq<u8>,
    last: bool,
    rest: Seq<u8>,
    out: Seq<u8>,
)
    requires
        chunk.len() <= MAX_STORED_LEN,
    ensures
        inflate_block(pre + stored_block_bytes(chunk, last) + rest, 8 * pre.len() as int, out) == Ok::<
            (bool, int, Seq<u8>),
            crate::Error,
        >((last, 8 * (pre.len() + 5 + chunk.len()) as int, out + chunk)),
{
    reveal(inflate_block);
    let block = stored_block_bytes(chunk, last);
    let input = pre + block + rest;
    let b = pre.len() as int;
    let n = chunk.len() as int;
    assert(input[b] == block[0]);
    lemma_low_three_bits(input, b);
    assert(input[b] % 8 == if last {
        1int
    } else {
        0int
    });
    assert(take_bits(input, 8 * b, 3) == Ok::<(int, int), crate::Error>(
        ((input[b] % 8) as int, 8 * b + 3),
    ));
    assert((8 * b + 3 + 7) / 8 == b + 1);
    assert(input[b + 1] == (n % 256) as u8 && input[b + 2] == (n / 256) as u8);
    assert(input[b + 3] == ((65535 - n) % 256) as u8 && input[b + 4] == ((65535 - n) / 256) as u8);
    assert(input[b + 1] + 256 * input[b + 2] == n);
    assert(input[b + 3] + 256 * input[b + 4] == 65535 - n);
    assert(input.subrange(b + 5, b + 5 + n) =~= chunk);
    assert(stored_block(input, 8 * b + 3, out) == Ok::<(int, Seq<u8>), crate::Error>(
        ((b + 5 + n) * 8, out + chunk),
    ));
}

/// Decoding blocks goes on past a block that is not the last one.
proof fn lemma_blocks_step(input: Seq<u8>, pos: int, out: Seq<u8>, q: int, o: Seq<u8>)
    requires
        inflate_block(input, pos, out) == Ok::<(bool, int, Seq<u8>), crate::Error>((false, q, o)),
    ensures
        inflate_blocks(input, pos, out) == inflate_blocks(input, q, o),
{
}

/// Decoding blocks stops after the last one.
proof fn lemma_blocks_last(input: Seq<u8>, pos: int, out: Seq<u8>, q: int, o: Seq<u8>)
    requires
        inflate_block(input, pos, out) == Ok::<(bool, int, Seq<u8>), crate::Error>((true, q, o)),
    ensures
        inflate_blocks(input, pos, out) == Ok::<(int, Seq<u8>), crate::Error>((q, o)),
{
}

/// A stored stream decodes to the data it holds, wherever it stands in the
/// input, and ends where its bytes end.
pub proof fn lemma_stored_stream_decodes(pre: Seq<u8>, data: Seq<u8>, rest: Seq<u8>, out: Seq<u8>)
    ensures
        inflate_blocks(pre + stored_stream(data) + rest, 8 * pre.len() as int, out) == Ok::<
            (int, Seq<u8>),
            crate::Error,
        >((8 * (pre.len() + stored_stream(data).len()) as int, out + data)),
    decreases data.len(),
{
    let input = pre + stored_stream(data) + rest;
    if data.len() <= MAX_STORED_LEN {
        lemma_stored_block_decodes(pre, data, true, rest, out);
        lemma_blocks_last(
            input,
            8 * pre.len() as int,
            out,
            8 * (pre.len() + 5 + data.len()) as int,
            out + data,
        );
    } else {
        let chunk = data.take(MAX_STORED_LEN as int);
        let tail = data.skip(MAX_STORED_LEN as int);
        let block = stored_block_bytes(chunk, false);
        let tail_stream = stored_stream(tail);
        assert(stored_stream(data) == block + tail_stream);
        assert(input =~= pre + block + (tail_stream + rest));
        lemma_stored_block_decodes(pre, chunk, false, tail_stream + rest, out);
        let q = 8 * (pre.len() + 5 + chunk.len()) as int;
        lemma_blocks_step(input, 8 * pre.len() as int, out, q, out + chunk);
        assert(input =~= (pre + block) + tail_stream + rest);
        assert(block.len() == 5 + chunk.len());
        lemma_stored_stream_decodes(pre + block, tail, rest, out + chunk);
        assert(out + chunk + tail =~= out + data);
    }
}

/// Four big-endian bytes read back give the word they were made from.
proof fn lemma_be32_read(x: u32)
    ensures
        read_be32(be32_bytes(x), 0) == x,
{
    let s = be32_bytes(x);
    let b0 = (x / 16777216) as u8;
    let b1 = ((x / 65536) % 256) as u8;
    let b2 = ((x / 256) % 256) as u8;
    let b3 = (x % 256) as u8;
    assert(s[0] == b0 && s[1] == b1 && s[2] == b2 && s[3] == b3);
    assert(x / 16777216 < 256 && (x / 65536) % 256 < 256 && (x / 256) % 256 < 256 && x % 256
        < 256) by (bit_vector);
    assert(x / 16777216 * 16777216 + (x / 65536) % 256 * 65536 + (x / 256) % 256 * 256 + x % 256
        == x) by (bit_vector);
}

/// Bytes that hold bits show those bits wherever the bytes stand.
proof fn lemma_holds_bits_at(pre: Seq<u8>, bytes: Seq<u8>, rest: Seq<u8>, bits: Seq<bool>)
    requires
        holds_bits(bytes, bits),
    ensures
        bits_at(pre + bytes + rest, 8 * pre.len() as int, bits),
{
    let input = pre + bytes + rest;
    assert forall|k: int| 0 <= k < bits.len() implies #[trigger] bit_at(
        input,
        8 * pre.len() as int + k,
    ) == crate::bitwriter::bit_value(bits[k]) by {
        lemma_bit_at_concat(pre, bytes, rest, k);
    }
}

/// One final block coded with the fixed code decodes to what its tokens
/// replay to, and ends in its last byte.
#[verifier::rlimit(30)]
pub proof fn lemma_fixed_stream_decodes(
    pre: Seq<u8>,
    stream: Seq<u8>,
    rest: Seq<u8>,
    tokens: Seq<Token>,
    data: Seq<u8>,
)
    requires
        holds_bits(stream, fixed_block_bits(tokens, true)),
        replay(Seq::empty(), tokens) == Some(data),
    ensures
        inflate_blocks(pre + stream + rest, 8 * pre.len() as int, Seq::empty()) matches Ok((q, out))
            && out == data && (q + 7) / 8 == pre.len() + stream.len(),
{
    reveal(inflate_block);
    let input = pre + stream + rest;
    let p = 8 * pre.len() as int;
    let bits = fixed_block_bits(tokens, true);
    let header = seq![true, true, false];
    lemma_holds_bits_at(pre, stream, rest, bits);
    assert(bits =~= header + (tokens_bits(tokens) + end_of_block_bits()));
    lemma_bits_at_split(input, p, header, tokens_bits(tokens) + end_of_block_bits());
    lemma_read_bits_number(input, p, header);
    reveal_with_fuel(crate::bitwriter::lsb_number, 4);
    assert(header.drop_first() =~= seq![true, false]);
    assert(header.drop_first().drop_first() =~= seq![false]);
    assert(header.drop_first().drop_first().drop_first() =~= Seq::<bool>::empty());
    assert(take_bits(input, p, 3) == Ok::<(int, int), crate::Error>((3, p + 3)));
    lemma_fixed_tokens_decode(input, p + 3, tokens, Seq::empty());
    let q = p + 3 + tokens_bits(tokens).len() + 7;
    assert(inflate_block(input, p, Seq::empty()) == Ok::<(bool, int, Seq<u8>), crate::Error>(
        (true, q, data),
    ));
    lemma_blocks_last(input, p, Seq::empty(), q, data);
    crate::bitwriter::lemma_msb_bits_len(0, 7);
    assert(bits.len() == q - p);
}

/// One final dynamic block decodes to what its tokens replay to, and ends
/// in its last byte.
#[verifier::rlimit(30)]
pub proof fn lemma_dynamic_stream_decodes(
    pre: Seq<u8>,
    stream: Seq<u8>,
    rest: Seq<u8>,
    tokens: Seq<Token>,
    lit: Seq<u8>,
    dist: Seq<u8>,
    clens: Seq<u8>,
    ops: Seq<LengthOp>,
    data: Seq<u8>,
)
    requires
        holds_bits(stream, dynamic_block_bits(tokens, lit, dist, clens, ops, true)),
        dynamic_block_ok(tokens, lit, dist, clens, ops),
        replay(Seq::empty(), tokens) == Some(data),
    ensures
        inflate_blocks(pre + stream + rest, 8 * pre.len() as int, Seq::empty()) matches Ok((q, out))
            && out == data && (q + 7) / 8 == pre.len() + stream.len(),
{
    reveal(inflate_block);
    let input = pre + stream + rest;
    let p = 8 * pre.len() as int;
    let bits = dynamic_block_bits(tokens, lit, dist, clens, ops, true);
    let header = seq![true, false, true];
    let h = dynamic_header_bits(lit, dist, clens, ops);
    let body = coded_tokens_bits(tokens, lit, dist) + symbol_bits(lit, 256);
    lemma_holds_bits_at(pre, stream, rest, bits);
    assert(bits =~= header + (h + body));
    lemma_bits_at_split(input, p, header, h + body);
    lemma_bits_at_split(input, p + 3, h, body);
    lemma_read_bits_number(input, p, header);
    reveal_with_fuel(crate::bitwriter::lsb_number, 4);
    assert(header.drop_first() =~= seq![false, true]);
    assert(header.drop_first().drop_first() =~= seq![true]);
    assert(header.drop_first().drop_first().drop_first() =~= Seq::<bool>::empty());
    assert(take_bits(input, p, 3) == Ok::<(int, int), crate::Error>((5, p + 3)));
    lemma_dynamic_header_reads(input, p + 3, lit, dist, clens, ops);
    let p2 = p + 3 + h.len();
    assert(tables_ok(lit, dist));
    lemma_coded_tokens_decode(input, p2, tokens, Seq::empty(), lit, dist);
    let q = p2 + coded_tokens_bits(tokens, lit, dist).len() + lit[256];
    crate::bitwriter::lemma_msb_bits_len(crate::canonical::canonical_code(lit, 256), lit[256] as nat);
    assert(inflate_block(input, p, Seq::empty()) == Ok::<(bool, int, Seq<u8>), crate::Error>(
        (true, q, data),
    ));
    lemma_blocks_last(input, p, Seq::empty(), q, data);
    assert(bits.len() == q - p);
}

/// Any stream the encoder may produce decodes to the data, and ends in
/// its last byte.
proof fn lemma_deflate_stream_decodes(
    pre: Seq<u8>,
    stream: Seq<u8>,
    rest: Seq<u8>,
    data: Seq<u8>,
    level: CompressionLevel,
    strategy: CompressionStrategy,
)
    requires
        is_deflate_stream(stream, data, level, strategy),
    ensures
        inflate_blocks(pre + stream + rest, 8 * pre.len() as int, Seq::empty()) matches Ok((q, out))
            && out == data && (q + 7) / 8 == pre.len() + stream.len(),
{
    if stream == stored_stream(data) {
        lemma_stored_stream_decodes(pre, data, rest, Seq::empty());
        assert(Seq::<u8>::empty() + data =~= data);
    } else if is_dynamic_stream(stream, data, strategy == CompressionStrategy::RLE) {
        let (tokens, lit, dist, clens, ops) = choose|
            tokens: Seq<Token>,
            lit: Seq<u8>,
            dist: Seq<u8>,
            clens: Seq<u8>,
            ops: Seq<LengthOp>,
        |
            #[trigger] dynamic_block_ok(tokens, lit, dist, clens, ops) && replay(
                Seq::empty(),
                tokens,
            ) == Some(data) && holds_bits(
                stream,
                dynamic_block_bits(tokens, lit, dist, clens, ops, true),
            );
        lemma_dynamic_stream_decodes(pre, stream, rest, tokens, lit, dist, clens, ops, data);
    } else {
        let runs_only = strategy == CompressionStrategy::RLE;
        assert(is_fixed_stream(stream, data, runs_only) || is_fixed_stream(stream, data, false));
        let tokens = choose|tokens: Seq<Token>|
            #[trigger] replay(Seq::empty(), tokens) == Some(data) && holds_bits(
                stream,
                fixed_block_bits(tokens, true),
            );
        lemma_fixed_stream_decodes(pre, stream, rest, tokens, data);
    }
}

/// Decompressing what the encoder writes gives back the data, and for zlib
/// the Adler-32 checksum of the data.
#[verifier::rlimit(40)]
pub proof fn lemma_round_trip(
    compressed: Seq<u8>,
    data: Seq<u8>,
    format: Format,
    level: CompressionLevel,
    strategy: CompressionStrategy,
)
    requires
        is_compressed(compressed, data, format, level, strategy),
    ensures
        decompressed(compressed, format) == Ok::<(Seq<u8>, Option<u32>), crate::Error>(
            (
                data,
                match format {
                    Format::Raw => None,
                    Format::Zlib => Some(adler32(data)),
                },
            ),
        ),
{
    let empty = Seq::<u8>::empty();
    match format {
        Format::Raw => {
            assert(compressed =~= empty + compressed + empty);
            lemma_deflate_stream_decodes(empty, compressed, empty, data, level, strategy);
        },
        Format::Zlib => {
            let stream = choose|stream: Seq<u8>|
                #[trigger] is_deflate_stream(stream, data, level, strategy) && compressed == seq![
                    0x78u8,
                    zlib_flags(level),
                ] + stream + be32_bytes(adler32(data));
            let header = seq![0x78u8, zlib_flags(level)];
            let footer = be32_bytes(adler32(data));
            assert(zlib_header_error(compressed) is None);
            lemma_deflate_stream_decodes(header, stream, footer, data, level, strategy);
            let b: int = 2 + stream.len() as int;
            lemma_be32_read(adler32(data));
            assert(compressed.subrange(b, b + 4) =~= footer);
            assert(read_be32(compressed, b) == read_be32(footer, 0));
        },
    }
}

} // verus!
