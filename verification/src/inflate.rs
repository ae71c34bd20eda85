//! DEFLATE decompression (RFC 1951): the format as spec functions over the
//! input bytes, and a decoder proved to follow them.
use vstd::prelude::*;
use crate::bits::{
    bit_at, bits_value, lemma_bit_at_range, lemma_bits_value_bound, lemma_pow2_small_16,
    lemma_pow2_small_monotonic,
    lemma_within_bounds, read_bits, total_bits, BitPos,
};
use crate::huffman::{code_space_left, decode_from, decode_symbol, Huffman, MAX_CODE_LEN};
use crate::Error;

verus! {

/// Base match lengths of the length symbols 257 to 285.
pub const LENGTH_BASE: [u16; 29] = [
    3, 4, 5, 6, 7, 8, 9, 10, 11, 13, 15, 17, 19, 23, 27, 31, 35, 43, 51, 59, 67, 83, 99, 115,
    131, 163, 195, 227, 258,
];

/// Extra bits that follow the length symbols 257 to 285.
pub const LENGTH_EXTRA: [u8; 29] = [
    0, 0, 0, 0, 0, 0, 0, 0, 1, 1, 1, 1, 2, 2, 2, 2, 3, 3, 3, 3, 4, 4, 4, 4, 5, 5, 5, 5, 0,
];

/// Base distances of the distance symbols 0 to 29.
pub const DIST_BASE: [u16; 30] = [
    1, 2, 3, 4, 5, 7, 9, 13, 17, 25, 33, 49, 65, 97, 129, 193, 257, 385, 513, 769, 1025, 1537,
    2049, 3073, 4097, 6145, 8193, 12289, 16385, 24577,
];

/// Extra bits that follow the distance symbols 0 to 29.
pub const DIST_EXTRA: [u8; 30] = [
    0, 0, 0, 0, 1, 1, 2, 2, 3, 3, 4, 4, 5, 5, 6, 6, 7, 7, 8, 8, 9, 9, 10, 10, 11, 11, 12, 12, 13,
    13,
];

/// The order in which the code lengths of the code length code are stored.
pub const CODE_LENGTH_ORDER: [u8; 19] = [
    16, 17, 18, 0, 8, 7, 9, 6, 10, 5, 11, 4, 12, 3, 13, 2, 14, 1, 15,
];

/// `n` bits read at `pos`, and the position after them; `Underflow` when the
/// input ends first.
pub open spec fn take_bits(input: Seq<u8>, pos: int, n: nat) -> Result<(int, int), Error> {
    if pos + n > total_bits(input) {
        Err(Error::Underflow)
    } else {
        Ok((bits_value(input, pos, n), pos + n))
    }
}

/// `out` extended by `len` bytes, each copied from `dist` bytes back; the
/// copy may overlap the bytes it appends.
pub open spec fn copy_back(out: Seq<u8>, dist: int, len: nat) -> Seq<u8>
    decreases len,
{
    if len == 0 {
        out
    } else {
        copy_back(out.push(out[out.len() - dist]), dist, (len - 1) as nat)
    }
}

/// A decoded symbol ends after the position it starts at, within the input.
pub proof fn lemma_decode_advances(lengths: Seq<u8>, input: Seq<u8>, pos: int)
    ensures
        decode_symbol(lengths, input, pos) matches Ok((_, q)) ==> pos < q <= total_bits(input),
{
    lemma_decode_from_advances(lengths, input, pos, 1, 0, 0);
}

/// Each decoding step consumes a bit of the input.
proof fn lemma_decode_from_advances(
    lengths: Seq<u8>,
    input: Seq<u8>,
    pos: int,
    len: int,
    code: int,
    first: int,
)
    ensures
        decode_from(lengths, input, pos, len, code, first) matches Ok((_, q)) ==> pos < q
            <= total_bits(input),
    decreases 16 - len,
{
    if 1 <= len <= MAX_CODE_LEN && pos < total_bits(input) {
        let c = code + bit_at(input, pos);
        let count = crate::huffman::code_count(lengths, len);
        if c >= first + count {
            lemma_decode_from_advances(lengths, input, pos + 1, len + 1, 2 * c, 2 * (first + count));
        }
    }
}

/// The match that length symbol `sym` (257 to 285) starts, its extra bits
/// read at `pos`: its length, its distance, and the position after it. A
/// distance beyond the `out_len` bytes already decoded is invalid.
pub open spec fn decode_match(
    input: Seq<u8>,
    pos: int,
    sym: u16,
    dist: Seq<u8>,
    out_len: int,
) -> Result<(int, int, int), Error> {
    let li = sym - 257;
    match take_bits(input, pos, LENGTH_EXTRA@[li] as nat) {
        Err(e) => Err(e),
        Ok((extra, p2)) => {
            let len = LENGTH_BASE@[li] + extra;
            match decode_symbol(dist, input, p2) {
                Err(e) => Err(e),
                Ok((dsym, p3)) => {
                    if dsym >= 30 {
                        Err(Error::InvalidBitstream)
                    } else {
                        match take_bits(input, p3, DIST_EXTRA@[dsym as int] as nat) {
                            Err(e) => Err(e),
                            Ok((dextra, p4)) => {
                                let d = DIST_BASE@[dsym as int] + dextra;
                                if d > out_len {
                                    Err(Error::InvalidBitstream)
                                } else {
                                    Ok((len, d, p4))
                                }
                            },
                        }
                    }
                },
            }
        },
    }
}

/// A decoded match ends after the position its extra bits start at.
pub proof fn lemma_match_advances(input: Seq<u8>, pos: int, sym: u16, dist: Seq<u8>, out_len: int)
    requires
        257 <= sym < 286,
    ensures
        decode_match(input, pos, sym, dist, out_len) matches Ok((len, d, q)) ==> pos < q
            <= total_bits(input) && 0 <= len < 65536 + 258 && 1 <= d < 65536 + 24577,
{
    lemma_table_bounds();
    let li = sym - 257;
    let n = LENGTH_EXTRA@[li] as nat;
    if pos + n <= total_bits(input) {
        lemma_decode_advances(dist, input, pos + n);
        lemma_bits_value_bound(input, pos, n);
        match decode_symbol(dist, input, pos + n) {
            Ok((dsym, p3)) => {
                if dsym < 30 {
                    let dn = DIST_EXTRA@[dsym as int] as nat;
                    lemma_bits_value_bound(input, p3, dn);
                    lemma_pow2_small_monotonic(dn, 16);
                    lemma_pow2_small_16();
                }
            },
            Err(_) => {},
        }
        lemma_pow2_small_monotonic(n, 16);
        lemma_pow2_small_16();
    }
}

/// The extra-bit counts are at most 13 and the base distances at least 1.
pub proof fn lemma_table_bounds()
    ensures
        forall|i: int| 0 <= i < 29 ==> LENGTH_EXTRA@[i] <= 5 && LENGTH_BASE@[i] <= 258,
        forall|i: int| 0 <= i < 30 ==> DIST_EXTRA@[i] <= 13 && 1 <= DIST_BASE@[i] <= 24577,
{
}

/// Decodes the compressed data of one Huffman-coded block that starts at
/// `pos`, appending to `out`, up to and including its end-of-block symbol;
/// gives the position after the block and the output.
pub open spec fn inflate_codes(
    input: Seq<u8>,
    pos: int,
    out: Seq<u8>,
    lit: Seq<u8>,
    dist: Seq<u8>,
) -> Result<(int, Seq<u8>), Error>
    decreases total_bits(input) - pos,
{
    match decode_symbol(lit, input, pos) {
        Err(e) => Err(e),
        Ok((sym, p1)) => {
            proof {
                lemma_decode_advances(lit, input, pos);
            }
            if sym < 256 {
                inflate_codes(input, p1, out.push(sym as u8), lit, dist)
            } else if sym == 256 {
                Ok((p1, out))
            } else if sym >= 286 {
                Err(Error::InvalidBitstream)
            } else {
                match decode_match(input, p1, sym, dist, out.len() as int) {
                    Err(e) => Err(e),
                    Ok((len, d, p4)) => {
                        proof {
                            lemma_match_advances(input, p1, sym, dist, out.len() as int);
                        }
                        inflate_codes(input, p4, copy_back(out, d, len as nat), lit, dist)
                    },
                }
            }
        },
    }
}

/// A stored block whose header ended at `pos`: the data starts at the next
/// byte boundary with its length and the length's complement, two bytes
/// each, least significant byte first, then the bytes themselves.
pub open spec fn stored_block(input: Seq<u8>, pos: int, out: Seq<u8>) -> Result<
    (int, Seq<u8>),
    Error,
> {
    let b = (pos + 7) / 8;
    if b + 4 > input.len() {
        Err(Error::Underflow)
    } else {
        let len = input[b] + 256 * input[b + 1];
        let nlen = input[b + 2] + 256 * input[b + 3];
        if len + nlen != 65535 {
            Err(Error::InvalidBitstream)
        } else if b + 4 + len > input.len() {
            Err(Error::Underflow)
        } else {
            Ok(((b + 4 + len) * 8, out + input.subrange(b + 4, b + 4 + len)))
        }
    }
}

/// The code lengths of the fixed literal/length code.
pub open spec fn fixed_lit_lengths() -> Seq<u8> {
    Seq::new(
        288,
        |i: int|
            if i < 144 {
                8u8
            } else if i < 256 {
                9u8
            } else if i < 280 {
                7u8
            } else {
                8u8
            },
    )
}

/// The code lengths of the fixed distance code.
pub open spec fn fixed_dist_lengths() -> Seq<u8> {
    Seq::new(30, |i: int| 5u8)
}

/// The code lengths of the code length code, after the first `k` of them
/// are read from three bits each at `pos`, in the order of
/// `CODE_LENGTH_ORDER`; the others are 0.
pub open spec fn code_length_lengths(input: Seq<u8>, pos: int, k: nat) -> Seq<u8>
    decreases k,
{
    if k == 0 {
        Seq::new(19, |i: int| 0u8)
    } else {
        code_length_lengths(input, pos, (k - 1) as nat).update(
            CODE_LENGTH_ORDER@[k - 1] as int,
            bits_value(input, pos + 3 * (k - 1), 3) as u8,
        )
    }
}

/// Reads code lengths with the code length code `clens` until `count` of
/// them follow `acc`: symbols 0 to 15 are lengths, 16 repeats the previous
/// length 3 to 6 times, 17 gives 3 to 10 zeros and 18 gives 11 to 138 zeros.
pub open spec fn read_code_lengths(
    input: Seq<u8>,
    pos: int,
    clens: Seq<u8>,
    count: nat,
    acc: Seq<u8>,
) -> Result<(Seq<u8>, int), Error>
    decreases count - acc.len(),
{
    if acc.len() >= count {
        Ok((acc, pos))
    } else {
        match decode_symbol(clens, input, pos) {
            Err(e) => Err(e),
            Ok((sym, p1)) => {
                if sym < 16 {
                    read_code_lengths(input, p1, clens, count, acc.push(sym as u8))
                } else if sym == 16 && acc.len() == 0 {
                    Err(Error::InvalidBitstream)
                } else {
                    let nbits: nat = if sym == 16 {
                        2
                    } else if sym == 17 {
                        3
                    } else {
                        7
                    };
                    let base: int = if sym == 18 {
                        11
                    } else {
                        3
                    };
                    let value: u8 = if sym == 16 {
                        acc.last()
                    } else {
                        0
                    };
                    match take_bits(input, p1, nbits) {
                        Err(e) => Err(e),
                        Ok((v, p2)) => {
                            proof {
                                lemma_bits_value_bound(input, p1, nbits);
                            }
                            let rep = base + v;
                            if acc.len() + rep > count {
                                Err(Error::InvalidBitstream)
                            } else {
                                read_code_lengths(
                                    input,
                                    p2,
                                    clens,
                                    count,
                                    acc + Seq::new(rep as nat, |i: int| value),
                                )
                            }
                        },
                    }
                }
            },
        }
    }
}

/// A literal/length or distance code that a block may use: complete, or
/// incomplete with no code longer than one bit.
pub open spec fn usable_code(lengths: Seq<u8>) -> bool {
    let left = code_space_left(lengths, MAX_CODE_LEN as nat);
    left == 0 || (left > 0 && forall|i: int| 0 <= i < lengths.len() ==> lengths[i] <= 1)
}

/// The literal/length and distance code lengths of a dynamic block whose
/// header ended at `pos`, and the position after them.
pub open spec fn dynamic_tables(input: Seq<u8>, pos: int) -> Result<
    (Seq<u8>, Seq<u8>, int),
    Error,
> {
    match take_bits(input, pos, 5) {
        Err(e) => Err(e),
        Ok((hlit, p1)) => match take_bits(input, p1, 5) {
            Err(e) => Err(e),
            Ok((hdist, p2)) => match take_bits(input, p2, 4) {
                Err(e) => Err(e),
                Ok((hclen, p3)) => {
                    let nlen = hlit + 257;
                    let ndist = hdist + 1;
                    let ncode = hclen + 4;
                    if nlen > 286 || ndist > 30 {
                        Err(Error::InvalidBitstream)
                    } else if p3 + 3 * ncode > total_bits(input) {
                        Err(Error::Underflow)
                    } else {
                        let clens = code_length_lengths(input, p3, ncode as nat);
                        if code_space_left(clens, MAX_CODE_LEN as nat) != 0 {
                            Err(Error::InvalidBitstream)
                        } else {
                            match read_code_lengths(
                                input,
                                p3 + 3 * ncode,
                                clens,
                                (nlen + ndist) as nat,
                                Seq::empty(),
                            ) {
                                Err(e) => Err(e),
                                Ok((lengths, p4)) => {
                                    let lit = lengths.take(nlen);
                                    let dist = lengths.skip(nlen);
                                    if lengths[256] == 0 {
                                        Err(Error::InvalidBitstream)
                                    } else if !usable_code(lit) || !usable_code(dist) {
                                        Err(Error::InvalidBitstream)
                                    } else {
                                        Ok((lit, dist, p4))
                                    }
                                },
                            }
                        }
                    }
                },
            },
        },
    }
}

/// Decodes the block that starts at `pos`, appending to `out`: whether it is
/// the last block, the position after it, and the output.
#[verifier::opaque]
pub open spec fn inflate_block(input: Seq<u8>, pos: int, out: Seq<u8>) -> Result<
    (bool, int, Seq<u8>),
    Error,
> {
    match take_bits(input, pos, 3) {
        Err(e) => Err(e),
        Ok((header, p1)) => {
            let last = header % 2 == 1;
            let btype = header / 2;
            let body = if btype == 0 {
                stored_block(input, p1, out)
            } else if btype == 1 {
                inflate_codes(input, p1, out, fixed_lit_lengths(), fixed_dist_lengths())
            } else if btype == 2 {
                match dynamic_tables(input, p1) {
                    Err(e) => Err(e),
                    Ok((lit, dist, p2)) => inflate_codes(input, p2, out, lit, dist),
                }
            } else {
                Err(Error::InvalidBitstream)
            };
            match body {
                Err(e) => Err(e),
                Ok((q, o)) => Ok((last, q, o)),
            }
        },
    }
}

/// Decodes blocks from `pos` on until the last one, appending to `out`: the
/// position after the last block, and the output.
pub open spec fn inflate_blocks(input: Seq<u8>, pos: int, out: Seq<u8>) -> Result<
    (int, Seq<u8>),
    Error,
>
    decreases total_bits(input) - pos,
{
    match inflate_block(input, pos, out) {
        Err(e) => Err(e),
        Ok((last, q, o)) => {
            if last {
                Ok((q, o))
            } else {
                proof {
                    lemma_block_advances(input, pos, out);
                }
                inflate_blocks(input, q, o)
            }
        },
    }
}

/// A raw DEFLATE stream at the start of `input` decoded: the bit position
/// after its last block, and the decompressed bytes.
pub open spec fn inflate(input: Seq<u8>) -> Result<(int, Seq<u8>), Error> {
    inflate_blocks(input, 0, Seq::empty())
}

/// The rest of a Huffman-coded block never ends before it starts.
pub proof fn lemma_codes_advance(input: Seq<u8>, pos: int, out: Seq<u8>, lit: Seq<u8>, dist: Seq<u8>)
    ensures
        inflate_codes(input, pos, out, lit, dist) matches Ok((q, _)) ==> pos < q <= total_bits(
            input,
        ),
    decreases total_bits(input) - pos,
{
    lemma_decode_advances(lit, input, pos);
    match decode_symbol(lit, input, pos) {
        Err(_) => {},
        Ok((sym, p1)) => {
            if sym < 256 {
                lemma_codes_advance(input, p1, out.push(sym as u8), lit, dist);
            } else if 256 < sym < 286 {
                lemma_match_advances(input, p1, sym, dist, out.len() as int);
                match decode_match(input, p1, sym, dist, out.len() as int) {
                    Err(_) => {},
                    Ok((len, d, p4)) => {
                        lemma_codes_advance(input, p4, copy_back(out, d, len as nat), lit, dist);
                    },
                }
            }
        },
    }
}

/// Reading code lengths never moves backwards.
proof fn lemma_read_code_lengths_advance(
    input: Seq<u8>,
    pos: int,
    clens: Seq<u8>,
    count: nat,
    acc: Seq<u8>,
)
    ensures
        read_code_lengths(input, pos, clens, count, acc) matches Ok((_, q)) ==> pos <= q,
    decreases count - acc.len(),
{
    if acc.len() < count {
        lemma_decode_advances(clens, input, pos);
        match decode_symbol(clens, input, pos) {
            Err(_) => {},
            Ok((sym, p1)) => {
                if sym < 16 {
                    lemma_read_code_lengths_advance(input, p1, clens, count, acc.push(sym as u8));
                } else if !(sym == 16 && acc.len() == 0) {
                    let nbits: nat = if sym == 16 {
                        2
                    } else if sym == 17 {
                        3
                    } else {
                        7
                    };
                    let base: int = if sym == 18 {
                        11
                    } else {
                        3
                    };
                    let value: u8 = if sym == 16 {
                        acc.last()
                    } else {
                        0
                    };
                    lemma_bits_value_bound(input, p1, nbits);
                    match take_bits(input, p1, nbits) {
                        Err(_) => {},
                        Ok((v, p2)) => {
                            let rep = base + v;
                            if acc.len() + rep <= count {
                                lemma_read_code_lengths_advance(
                                    input,
                                    p2,
                                    clens,
                                    count,
                                    acc + Seq::new(rep as nat, |i: int| value),
                                );
                            }
                        },
                    }
                }
            },
        }
    }
}

/// The code length code always has 19 lengths.
proof fn lemma_code_length_lengths_len(input: Seq<u8>, pos: int, k: nat)
    requires
        k <= 19,
    ensures
        code_length_lengths(input, pos, k).len() == 19,
    decreases k,
{
    if k > 0 {
        lemma_code_length_lengths_len(input, pos, (k - 1) as nat);
        assert(CODE_LENGTH_ORDER@[k - 1] < 19);
    }
}

/// Code lengths read successfully are exactly as many as asked for.
proof fn lemma_read_code_lengths_len(
    input: Seq<u8>,
    pos: int,
    clens: Seq<u8>,
    count: nat,
    acc: Seq<u8>,
)
    requires
        acc.len() <= count,
    ensures
        read_code_lengths(input, pos, clens, count, acc) matches Ok((l, _)) ==> l.len() == count,
    decreases count - acc.len(),
{
    if acc.len() < count {
        match decode_symbol(clens, input, pos) {
            Err(_) => {},
            Ok((sym, p1)) => {
                if sym < 16 {
                    lemma_read_code_lengths_len(input, p1, clens, count, acc.push(sym as u8));
                } else if !(sym == 16 && acc.len() == 0) {
                    let nbits: nat = if sym == 16 {
                        2
                    } else if sym == 17 {
                        3
                    } else {
                        7
                    };
                    let base: int = if sym == 18 {
                        11
                    } else {
                        3
                    };
                    let value: u8 = if sym == 16 {
                        acc.last()
                    } else {
                        0
                    };
                    lemma_bits_value_bound(input, p1, nbits);
                    match take_bits(input, p1, nbits) {
                        Err(_) => {},
                        Ok((v, p2)) => {
                            let rep = base + v;
                            if acc.len() + rep <= count {
                                lemma_read_code_lengths_len(
                                    input,
                                    p2,
                                    clens,
                                    count,
                                    acc + Seq::new(rep as nat, |i: int| value),
                                );
                            }
                        },
                    }
                }
            },
        }
    }
}

/// A decoded block ends after it starts, within the input.
pub proof fn lemma_block_advances(input: Seq<u8>, pos: int, out: Seq<u8>)
    ensures
        inflate_block(input, pos, out) matches Ok((_, q, _)) ==> pos < q <= total_bits(input),
{
    reveal(inflate_block);
    if pos + 3 <= total_bits(input) {
        let p1 = pos + 3;
        lemma_codes_advance(input, p1, out, fixed_lit_lengths(), fixed_dist_lengths());
        match dynamic_tables(input, p1) {
            Err(_) => {},
            Ok((lit, dist, p2)) => {
                lemma_dynamic_tables_advance(input, p1);
                lemma_codes_advance(input, p2, out, lit, dist);
            },
        }
    }
}

/// Reading a dynamic header never moves backwards.
proof fn lemma_dynamic_tables_advance(input: Seq<u8>, pos: int)
    ensures
        dynamic_tables(input, pos) matches Ok((_, _, q)) ==> pos <= q,
{
    if pos + 14 <= total_bits(input) {
        let hlit = bits_value(input, pos, 5);
        let hdist = bits_value(input, pos + 5, 5);
        let hclen = bits_value(input, pos + 10, 4);
        let ncode = hclen + 4;
        lemma_bits_value_bound(input, pos + 10, 4);
        lemma_read_code_lengths_advance(
            input,
            pos + 14 + 3 * ncode,
            code_length_lengths(input, pos + 14, ncode as nat),
            (hlit + 257 + hdist + 1) as nat,
            Seq::empty(),
        );
    }
}

/// A literal symbol appends its byte and decoding goes on after it.
pub proof fn lemma_codes_literal_step(
    input: Seq<u8>,
    pos: int,
    out: Seq<u8>,
    lit: Seq<u8>,
    dist: Seq<u8>,
    sym: u16,
    p1: int,
)
    requires
        decode_symbol(lit, input, pos) == Ok::<(u16, int), Error>((sym, p1)),
        sym < 256,
    ensures
        inflate_codes(input, pos, out, lit, dist) == inflate_codes(
            input,
            p1,
            out.push(sym as u8),
            lit,
            dist,
        ),
{
}

/// The end-of-block symbol ends the block's data.
pub proof fn lemma_codes_end_step(
    input: Seq<u8>,
    pos: int,
    out: Seq<u8>,
    lit: Seq<u8>,
    dist: Seq<u8>,
    p1: int,
)
    requires
        decode_symbol(lit, input, pos) == Ok::<(u16, int), Error>((256, p1)),
    ensures
        inflate_codes(input, pos, out, lit, dist) == Ok::<(int, Seq<u8>), Error>((p1, out)),
{
}

/// A length symbol copies its match and decoding goes on after it.
pub proof fn lemma_codes_match_step(
    input: Seq<u8>,
    pos: int,
    out: Seq<u8>,
    lit: Seq<u8>,
    dist: Seq<u8>,
    sym: u16,
    p1: int,
    len: int,
    d: int,
    p4: int,
)
    requires
        decode_symbol(lit, input, pos) == Ok::<(u16, int), Error>((sym, p1)),
        257 <= sym < 286,
        decode_match(input, p1, sym, dist, out.len() as int) == Ok::<(int, int, int), Error>(
            (len, d, p4),
        ),
    ensures
        inflate_codes(input, pos, out, lit, dist) == inflate_codes(
            input,
            p4,
            copy_back(out, d, len as nat),
            lit,
            dist,
        ),
{
}

/// A code length symbol below 16 appends that length.
pub proof fn lemma_read_lengths_single(
    input: Seq<u8>,
    pos: int,
    clens: Seq<u8>,
    count: nat,
    acc: Seq<u8>,
    sym: u16,
    p1: int,
)
    requires
        acc.len() < count,
        decode_symbol(clens, input, pos) == Ok::<(u16, int), Error>((sym, p1)),
        sym < 16,
    ensures
        read_code_lengths(input, pos, clens, count, acc) == read_code_lengths(
            input,
            p1,
            clens,
            count,
            acc.push(sym as u8),
        ),
{
}

/// A repeat symbol (16, 17 or 18) appends its run.
pub proof fn lemma_read_lengths_run(
    input: Seq<u8>,
    pos: int,
    clens: Seq<u8>,
    count: nat,
    acc: Seq<u8>,
    sym: u16,
    p1: int,
    v: int,
    p2: int,
)
    requires
        acc.len() < count,
        decode_symbol(clens, input, pos) == Ok::<(u16, int), Error>((sym, p1)),
        16 <= sym <= 18,
        sym == 16 ==> acc.len() > 0,
        take_bits(
            input,
            p1,
            if sym == 16 {
                2
            } else if sym == 17 {
                3
            } else {
                7
            },
        ) == Ok::<(int, int), Error>((v, p2)),
        0 <= v,
        acc.len() + (if sym == 18 {
            11int
        } else {
            3int
        }) + v <= count,
    ensures
        read_code_lengths(input, pos, clens, count, acc) == read_code_lengths(
            input,
            p2,
            clens,
            count,
            acc + Seq::new(
                ((if sym == 18 {
                    11int
                } else {
                    3int
                }) + v) as nat,
                |i: int|
                    if sym == 16 {
                        acc.last()
                    } else {
                        0u8
                    },
            ),
        ),
{
}

/// Appends `len` bytes to `out`, each copied from `dist` bytes back.
fn copy_match(out: &mut Vec<u8>, dist: usize, len: usize)
    requires
        1 <= dist <= old(out)@.len(),
    ensures
        final(out)@ == copy_back(old(out)@, dist as int, len as nat),
{
    let mut k: usize = 0;
    while k < len
        invariant
            k <= len,
            1 <= dist <= out@.len(),
            copy_back(out@, dist as int, (len - k) as nat) == copy_back(
                old(out)@,
                dist as int,
                len as nat,
            ),
        decreases len - k,
    {
        let b = out[out.len() - dist];
        out.push(b);
        k = k + 1;
    }
}

/// Reads the match that length symbol `sym` starts, as `decode_match`
/// states: its length and distance.
fn read_match(input: &[u8], p: &mut BitPos, sym: u16, dist: &Huffman, out_len: usize) -> (r:
    Result<(usize, usize), Error>)
    requires
        old(p).within(input@),
        dist.wf(),
        257 <= sym < 286,
    ensures
        final(p).within(input@),
        match decode_match(input@, old(p).at(), sym, dist.code_lengths(), out_len as int) {
            Ok((len, d, q)) => r == Ok::<(usize, usize), Error>((len as usize, d as usize))
                && final(p).at() == q && len == len as usize && d == d as usize,
            Err(e) => r == Err::<(usize, usize), Error>(e),
        },
{
    let ghost p1 = p.at();
    let li = (sym - 257) as usize;
    let extra = match read_bits(input, p, LENGTH_EXTRA[li]) {
        Some(v) => v,
        None => {
            return Err(Error::Underflow);
        },
    };
    let len = LENGTH_BASE[li] as usize + extra as usize;
    let ghost p2 = p.at();
    let dsym = match dist.decode(input, p) {
        Ok(s) => s,
        Err(e) => {
            return Err(e);
        },
    };
    if dsym >= 30 {
        return Err(Error::InvalidBitstream);
    }
    let ghost p3 = p.at();
    let dextra = match read_bits(input, p, DIST_EXTRA[dsym as usize]) {
        Some(v) => v,
        None => {
            return Err(Error::Underflow);
        },
    };
    let d = DIST_BASE[dsym as usize] as usize + dextra as usize;
    let ghost p4 = p.at();
    assert(take_bits(input@, p1, LENGTH_EXTRA@[li as int] as nat) == Ok::<(int, int), Error>((extra as int, p2)));
    assert(decode_symbol(dist.code_lengths(), input@, p2) == Ok::<(u16, int), Error>((dsym, p3)));
    assert(take_bits(input@, p3, DIST_EXTRA@[dsym as int] as nat) == Ok::<(int, int), Error>((dextra as int, p4)));
    if d > out_len {
        return Err(Error::InvalidBitstream);
    }
    Ok((len, d))
}

/// Decodes one Huffman-coded block, as `inflate_codes` states.
pub fn inflate_block_codes(
    input: &[u8],
    p: &mut BitPos,
    out: &mut Vec<u8>,
    lit: &Huffman,
    dist: &Huffman,
) -> (r: Result<(), Error>)
    requires
        old(p).within(input@),
        lit.wf(),
        dist.wf(),
    ensures
        final(p).within(input@),
        match inflate_codes(
            input@,
            old(p).at(),
            old(out)@,
            lit.code_lengths(),
            dist.code_lengths(),
        ) {
            Ok((q, o)) => r is Ok && final(p).at() == q && final(out)@ == o,
            Err(e) => r == Err::<(), Error>(e),
        },
{
    let ghost goal = inflate_codes(
        input@,
        old(p).at(),
        old(out)@,
        lit.code_lengths(),
        dist.code_lengths(),
    );
    loop
        invariant
            p.within(input@),
            lit.wf(),
            dist.wf(),
            inflate_codes(input@, p.at(), out@, lit.code_lengths(), dist.code_lengths()) == goal,
            goal == inflate_codes(
                input@,
                old(p).at(),
                old(out)@,
                lit.code_lengths(),
                dist.code_lengths(),
            ),
        decreases total_bits(input@) - p.at(),
    {
        let ghost here = p.at();
        proof {
            lemma_within_bounds(*p, input@);
            lemma_decode_advances(lit.code_lengths(), input@, here);
        }
        let sym = match lit.decode(input, p) {
            Ok(s) => s,
            Err(e) => {
                return Err(e);
            },
        };
        if sym < 256 {
            out.push(sym as u8);
        } else if sym == 256 {
            return Ok(());
        } else if sym >= 286 {
            return Err(Error::InvalidBitstream);
        } else {
            let ghost p1 = p.at();
            proof {
                lemma_match_advances(input@, p1, sym, dist.code_lengths(), out.len() as int);
            }
            let (len, d) = match read_match(input, p, sym, dist, out.len()) {
                Ok(m) => m,
                Err(e) => {
                    return Err(e);
                },
            };
            copy_match(out, d, len);
        }
    }
}

/// Decodes a stored block whose header ended at `p`, as `stored_block` states.
fn inflate_stored(input: &[u8], p: &mut BitPos, out: &mut Vec<u8>) -> (r: Result<(), Error>)
    requires
        old(p).within(input@),
    ensures
        final(p).within(input@),
        match stored_block(input@, old(p).at(), old(out)@) {
            Ok((q, o)) => r is Ok && final(p).at() == q && final(out)@ == o,
            Err(e) => r == Err::<(), Error>(e),
        },
{
    let n = input.len();
    let mut b = p.byte;
    if p.bit != 0 {
        b = b + 1;
    }
    assert(b as int == (p.at() + 7) / 8) by (nonlinear_arith)
        requires
            p.bit < 8,
            p.bit == 0 ==> b == p.byte,
            p.bit != 0 ==> b == p.byte + 1,
            p.at() == p.byte * 8 + p.bit,
    ;
    if input.len() - b < 4 {
        return Err(Error::Underflow);
    }
    let len = input[b] as usize + 256 * input[b + 1] as usize;
    let nlen = input[b + 2] as usize + 256 * input[b + 3] as usize;
    if len + nlen != 65535 {
        return Err(Error::InvalidBitstream);
    }
    let start = b + 4;
    if input.len() - start < len {
        return Err(Error::Underflow);
    }
    let mut i: usize = 0;
    while i < len
        invariant
            i <= len,
            start + len <= input@.len(),
            n == input@.len(),
            out@ == old(out)@ + input@.subrange(start as int, start + i),
        decreases len - i,
    {
        out.push(input[start + i]);
        assert(input@.subrange(start as int, start + i + 1) =~= input@.subrange(
            start as int,
            start + i,
        ).push(input@[start + i]));
        i = i + 1;
    }
    p.byte = start + len;
    p.bit = 0;
    Ok(())
}

/// The code lengths of the fixed literal/length code.
fn fixed_lit_lengths_vec() -> (v: Vec<u8>)
    ensures
        v@ == fixed_lit_lengths(),
{
    let mut v: Vec<u8> = Vec::new();
    let mut i: usize = 0;
    while i < 288
        invariant
            i <= 288,
            v@ =~= fixed_lit_lengths().take(i as int),
        decreases 288 - i,
    {
        let len: u8 = if i < 144 {
            8
        } else if i < 256 {
            9
        } else if i < 280 {
            7
        } else {
            8
        };
        v.push(len);
        i = i + 1;
        assert(v@ =~= fixed_lit_lengths().take(i as int));
    }
    v
}

/// The code lengths of the fixed distance code.
fn fixed_dist_lengths_vec() -> (v: Vec<u8>)
    ensures
        v@ == fixed_dist_lengths(),
{
    let mut v: Vec<u8> = Vec::new();
    let mut i: usize = 0;
    while i < 30
        invariant
            i <= 30,
            v@ =~= fixed_dist_lengths().take(i as int),
        decreases 30 - i,
    {
        v.push(5);
        i = i + 1;
        assert(v@ =~= fixed_dist_lengths().take(i as int));
    }
    v
}

/// Reads the code lengths of the code length code, as
/// `code_length_lengths` states, or `Underflow`.
fn read_code_length_lengths(input: &[u8], p: &mut BitPos, ncode: usize) -> (r: Result<
    Vec<u8>,
    Error,
>)
    requires
        old(p).within(input@),
        ncode <= 19,
    ensures
        final(p).within(input@),
        old(p).at() + 3 * ncode <= total_bits(input@) ==> (r matches Ok(v) && v@
            == code_length_lengths(input@, old(p).at(), ncode as nat) && final(p).at() == old(
            p,
        ).at() + 3 * ncode),
        old(p).at() + 3 * ncode > total_bits(input@) ==> r == Err::<Vec<u8>, Error>(
            Error::Underflow,
        ),
{
    let ghost start = p.at();
    let mut clens: Vec<u8> = Vec::new();
    let mut i: usize = 0;
    while i < 19
        invariant
            i <= 19,
            clens@ =~= Seq::new(i as nat, |j: int| 0u8),
        decreases 19 - i,
    {
        clens.push(0);
        i = i + 1;
    }
    let mut k: usize = 0;
    while k < ncode
        invariant
            k <= ncode <= 19,
            p.within(input@),
            start == old(p).at(),
            p.at() == start + 3 * k,
            clens@ == code_length_lengths(input@, start, k as nat),
            clens@.len() == 19,
        decreases ncode - k,
    {
        let v = match read_bits(input, p, 3) {
            Some(v) => v,
            None => {
                return Err(Error::Underflow);
            },
        };
        proof {
            lemma_bits_value_bound(input@, start + 3 * k, 3);
            reveal_with_fuel(crate::bits::pow2_small, 4);
        }
        let slot = CODE_LENGTH_ORDER[k] as usize;
        clens.set(slot, v as u8);
        k = k + 1;
    }
    Ok(clens)
}

/// Reads `count` code lengths with the code length code `clens`, as
/// `read_code_lengths` states from an empty start.
fn read_lengths(input: &[u8], p: &mut BitPos, clens: &Huffman, count: usize) -> (r: Result<
    Vec<u8>,
    Error,
>)
    requires
        old(p).within(input@),
        clens.wf(),
    ensures
        final(p).within(input@),
        match read_code_lengths(
            input@,
            old(p).at(),
            clens.code_lengths(),
            count as nat,
            Seq::empty(),
        ) {
            Ok((l, q)) => r matches Ok(v) && v@ == l && final(p).at() == q,
            Err(e) => r == Err::<Vec<u8>, Error>(e),
        },
{
    let ghost goal = read_code_lengths(
        input@,
        old(p).at(),
        clens.code_lengths(),
        count as nat,
        Seq::empty(),
    );
    let mut lengths: Vec<u8> = Vec::new();
    while lengths.len() < count
        invariant
            p.within(input@),
            clens.wf(),
            lengths@.len() <= count,
            read_code_lengths(input@, p.at(), clens.code_lengths(), count as nat, lengths@)
                == goal,
            goal == read_code_lengths(
                input@,
                old(p).at(),
                clens.code_lengths(),
                count as nat,
                Seq::empty(),
            ),
        decreases count - lengths@.len(),
    {
        let ghost here = p.at();
        let ghost acc = lengths@;
        let sym = match clens.decode(input, p) {
            Ok(s) => s,
            Err(e) => {
                assert(read_code_lengths(input@, here, clens.code_lengths(), count as nat, acc)
                    == Err::<(Seq<u8>, int), Error>(e));
                return Err(e);
            },
        };
        if sym < 16 {
            lengths.push(sym as u8);
        } else if sym == 16 && lengths.len() == 0 {
            return Err(Error::InvalidBitstream);
        } else {
            let nbits: u8 = if sym == 16 {
                2
            } else if sym == 17 {
                3
            } else {
                7
            };
            let base: usize = if sym == 18 {
                11
            } else {
                3
            };
            let value: u8 = if sym == 16 {
                lengths[lengths.len() - 1]
            } else {
                0
            };
            let ghost p1 = p.at();
            let v = match read_bits(input, p, nbits) {
                Some(v) => v,
                None => {
                    assert(take_bits(input@, p1, nbits as nat) == Err::<(int, int), Error>(
                        Error::Underflow,
                    ));
                    assert(read_code_lengths(input@, here, clens.code_lengths(), count as nat, acc)
                        == Err::<(Seq<u8>, int), Error>(Error::Underflow));
                    return Err(Error::Underflow);
                },
            };
            let rep = base + v as usize;
            if rep > count - lengths.len() {
                return Err(Error::InvalidBitstream);
            }
            let ghost target = acc + Seq::new(rep as nat, |i: int| value);
            let mut j: usize = 0;
            while j < rep
                invariant
                    j <= rep,
                    lengths@ =~= acc + Seq::new(j as nat, |i: int| value),
                decreases rep - j,
            {
                lengths.push(value);
                j = j + 1;
            }
            assert(lengths@ =~= target);
        }
    }
    Ok(lengths)
}

/// Whether the code may be used by a block, as `usable_code` states.
pub fn is_usable(code: &Huffman, lengths: &Vec<u8>) -> (r: bool)
    requires
        code.wf(),
        code.code_lengths() == lengths@,
    ensures
        r == usable_code(lengths@),
{
    let left = code.space_left();
    if left == 0 {
        return true;
    }
    if left < 0 {
        return false;
    }
    let mut i: usize = 0;
    while i < lengths.len()
        invariant
            i <= lengths@.len(),
            left > 0,
            left == code_space_left(lengths@, MAX_CODE_LEN as nat),
            forall|j: int| 0 <= j < i ==> lengths@[j] <= 1,
        decreases lengths@.len() - i,
    {
        if lengths[i] > 1 {
            return false;
        }
        i = i + 1;
    }
    true
}

/// Reads the code tables of a dynamic block, as `dynamic_tables` states.
fn read_dynamic_tables(input: &[u8], p: &mut BitPos) -> (r: Result<(Huffman, Huffman), Error>)
    requires
        old(p).within(input@),
    ensures
        final(p).within(input@),
        match dynamic_tables(input@, old(p).at()) {
            Ok((l, d, q)) => r matches Ok((lit, dist)) && lit.wf() && dist.wf()
                && lit.code_lengths() == l && dist.code_lengths() == d && final(p).at() == q,
            Err(e) => r matches Err(e2) && e2 == e,
        },
{
    let ghost p0 = p.at();
    let hlit = match read_bits(input, p, 5) {
        Some(v) => v,
        None => {
            return Err(Error::Underflow);
        },
    };
    let hdist = match read_bits(input, p, 5) {
        Some(v) => v,
        None => {
            return Err(Error::Underflow);
        },
    };
    let hclen = match read_bits(input, p, 4) {
        Some(v) => v,
        None => {
            return Err(Error::Underflow);
        },
    };
    let nlen = hlit as usize + 257;
    let ndist = hdist as usize + 1;
    let ncode = hclen as usize + 4;
    if nlen > 286 || ndist > 30 {
        return Err(Error::InvalidBitstream);
    }
    proof {
        lemma_bits_value_bound(input@, p0 + 10, 4);
        reveal_with_fuel(crate::bits::pow2_small, 5);
    }
    let ghost p3 = p.at();
    let clens = match read_code_length_lengths(input, p, ncode) {
        Ok(v) => v,
        Err(e) => {
            return Err(e);
        },
    };
    proof {
        lemma_code_length_lengths_len(input@, p3, ncode as nat);
    }
    let clen_code = Huffman::build(&clens);
    if clen_code.space_left() != 0 {
        return Err(Error::InvalidBitstream);
    }
    let lengths = match read_lengths(input, p, &clen_code, nlen + ndist) {
        Ok(v) => v,
        Err(e) => {
            return Err(e);
        },
    };
    proof {
        lemma_read_code_lengths_len(
            input@,
            p3 + 3 * ncode,
            clen_code.code_lengths(),
            (nlen + ndist) as nat,
            Seq::empty(),
        );
    }
    if lengths[256] == 0 {
        return Err(Error::InvalidBitstream);
    }
    let mut lit_lengths: Vec<u8> = Vec::new();
    let mut dist_lengths: Vec<u8> = Vec::new();
    let mut i: usize = 0;
    while i < nlen + ndist
        invariant
            nlen <= 286,
            ndist <= 30,
            i <= nlen + ndist,
            lengths@.len() == nlen + ndist,
            i <= nlen ==> lit_lengths@ =~= lengths@.take(i as int) && dist_lengths@.len() == 0,
            i > nlen ==> lit_lengths@ =~= lengths@.take(nlen as int) && dist_lengths@
                =~= lengths@.subrange(nlen as int, i as int),
        decreases nlen + ndist - i,
    {
        if i < nlen {
            lit_lengths.push(lengths[i]);
        } else {
            dist_lengths.push(lengths[i]);
        }
        i = i + 1;
    }
    assert(dist_lengths@ =~= lengths@.skip(nlen as int));
    let lit = Huffman::build(&lit_lengths);
    let dist = Huffman::build(&dist_lengths);
    if !is_usable(&lit, &lit_lengths) || !is_usable(&dist, &dist_lengths) {
        return Err(Error::InvalidBitstream);
    }
    Ok((lit, dist))
}

/// Decodes the block that starts at `p`, as `inflate_block` states; gives
/// whether it was the last block.
fn inflate_one_block(input: &[u8], p: &mut BitPos, out: &mut Vec<u8>) -> (r: Result<bool, Error>)
    requires
        old(p).within(input@),
    ensures
        final(p).within(input@),
        match inflate_block(input@, old(p).at(), old(out)@) {
            Ok((last, q, o)) => r == Ok::<bool, Error>(last) && final(p).at() == q
                && final(out)@ == o,
            Err(e) => r == Err::<bool, Error>(e),
        },
{
    reveal(inflate_block);
    let ghost p0 = p.at();
    let header = match read_bits(input, p, 3) {
        Some(v) => v,
        None => {
            return Err(Error::Underflow);
        },
    };
    let last = header % 2 == 1;
    let btype = header / 2;
    let ghost p1 = p.at();
    assert(take_bits(input@, p0, 3) == Ok::<(int, int), Error>((header as int, p1)));
    if btype == 0 {
        match inflate_stored(input, p, out) {
            Ok(()) => Ok(last),
            Err(e) => Err(e),
        }
    } else if btype == 1 {
        let lit_lengths = fixed_lit_lengths_vec();
        let dist_lengths = fixed_dist_lengths_vec();
        let lit = Huffman::build(&lit_lengths);
        let dist = Huffman::build(&dist_lengths);
        match inflate_block_codes(input, p, out, &lit, &dist) {
            Ok(()) => Ok(last),
            Err(e) => Err(e),
        }
    } else if btype == 2 {
        let (lit, dist) = match read_dynamic_tables(input, p) {
            Ok(t) => t,
            Err(e) => {
                return Err(e);
            },
        };
        match inflate_block_codes(input, p, out, &lit, &dist) {
            Ok(()) => Ok(last),
            Err(e) => Err(e),
        }
    } else {
        Err(Error::InvalidBitstream)
    }
}

/// Decodes blocks from `p` on up to the last one, as `inflate_blocks` states.
pub fn inflate_stream(input: &[u8], p: &mut BitPos, out: &mut Vec<u8>) -> (r: Result<(), Error>)
    requires
        old(p).within(input@),
    ensures
        final(p).within(input@),
        match inflate_blocks(input@, old(p).at(), old(out)@) {
            Ok((q, o)) => r is Ok && final(p).at() == q && final(out)@ == o,
            Err(e) => r == Err::<(), Error>(e),
        },
{
    let ghost goal = inflate_blocks(input@, old(p).at(), old(out)@);
    loop
        invariant
            p.within(input@),
            inflate_blocks(input@, p.at(), out@) == goal,
            goal == inflate_blocks(input@, old(p).at(), old(out)@),
        decreases total_bits(input@) - p.at(),
    {
        let ghost here = p.at();
        let ghost out0 = out@;
        proof {
            lemma_block_advances(input@, here, out0);
            lemma_within_bounds(*p, input@);
        }
        match inflate_one_block(input, p, out) {
            Ok(last) => {
                if last {
                    return Ok(());
                }
            },
            Err(e) => {
                return Err(e);
            },
        }
    }
}

/// Whether a block is the last one is bit 0 of its three-bit header alone,
/// whatever the block's type.
pub proof fn lemma_block_last_flag(input: Seq<u8>, pos: int, out: Seq<u8>)
    ensures
        inflate_block(input, pos, out) matches Ok((last, q, o)) ==> last == (bit_at(input, pos)
            == 1),
{
    reveal(inflate_block);
    if pos + 3 <= total_bits(input) {
        lemma_bits_value_bound(input, pos + 1, 2);
        lemma_bit_at_range(input, pos);
        assert(bits_value(input, pos, 3) == bit_at(input, pos) + 2 * bits_value(input, pos + 1, 2));
    }
}

/// Blocks are decoded one after the other until the last one: after a
/// block that is not the last, decoding goes on where it ended, with its
/// output; a last block ends the stream there.
pub proof fn lemma_blocks_follow(input: Seq<u8>, pos: int, out: Seq<u8>)
    ensures
        inflate_block(input, pos, out) matches Ok((last, q, o)) ==> inflate_blocks(
            input,
            pos,
            out,
        ) == if last {
            Ok((q, o))
        } else {
            inflate_blocks(input, q, o)
        },
        inflate_block(input, pos, out) matches Err(e) ==> inflate_blocks(input, pos, out) == Err::<
            (int, Seq<u8>),
            Error,
        >(e),
{
}

/// A stored block whose header ends at any bit position `pos` takes its
/// length from the first whole byte at or after `pos`, then its complement,
/// then that many bytes, and decoding goes on at the byte after them.
pub proof fn lemma_stored_block_at(input: Seq<u8>, pos: int, out: Seq<u8>, b: int)
    requires
        0 <= pos,
        pos <= 8 * b < pos + 8,
        b + 4 <= input.len(),
        input[b + 2] + 256 * input[b + 3] == 65535 - (input[b] + 256 * input[b + 1]),
        b + 4 + input[b] + 256 * input[b + 1] <= input.len(),
    ensures
        stored_block(input, pos, out) == Ok::<(int, Seq<u8>), Error>(
            (
                (b + 4 + input[b] + 256 * input[b + 1]) * 8,
                out + input.subrange(b + 4, b + 4 + input[b] + 256 * input[b + 1]),
            ),
        ),
{
    assert((pos + 7) / 8 == b);
}

/// A block's type is bits 1 and 2 of its header, the first of them the
/// low bit: 00 a stored block, 01 the fixed code, 10 a code of its own, and
/// 11 is refused; the block's data starts right after the three bits.
pub proof fn lemma_block_type(input: Seq<u8>, pos: int, out: Seq<u8>)
    requires
        0 <= pos,
        pos + 3 <= total_bits(input),
    ensures
        ({
            let last = bit_at(input, pos) == 1;
            let b1 = bit_at(input, pos + 1);
            let b2 = bit_at(input, pos + 2);
            let body = if b1 == 0 && b2 == 0 {
                stored_block(input, pos + 3, out)
            } else if b1 == 1 && b2 == 0 {
                inflate_codes(input, pos + 3, out, fixed_lit_lengths(), fixed_dist_lengths())
            } else if b1 == 0 && b2 == 1 {
                match dynamic_tables(input, pos + 3) {
                    Err(e) => Err(e),
                    Ok((lit, dist, p2)) => inflate_codes(input, p2, out, lit, dist),
                }
            } else {
                Err(Error::InvalidBitstream)
            };
            inflate_block(input, pos, out) == match body {
                Err(e) => Err(e),
                Ok((q, o)) => Ok((last, q, o)),
            }
        }),
{
    reveal(inflate_block);
    lemma_bit_at_range(input, pos);
    lemma_bit_at_range(input, pos + 1);
    lemma_bit_at_range(input, pos + 2);
    reveal_with_fuel(bits_value, 4);
}

/// A stored block is refused when its length and the length's complement
/// do not match, and needs more input when its length bytes or its data
/// run past the end.
pub proof fn lemma_stored_block_errors(input: Seq<u8>, pos: int, out: Seq<u8>, b: int)
    requires
        0 <= pos,
        pos <= 8 * b < pos + 8,
    ensures
        b + 4 > input.len() ==> stored_block(input, pos, out) == Err::<(int, Seq<u8>), Error>(
            Error::Underflow,
        ),
        b + 4 <= input.len() && input[b + 2] + 256 * input[b + 3] != 65535 - (input[b] + 256
            * input[b + 1]) ==> stored_block(input, pos, out) == Err::<(int, Seq<u8>), Error>(
            Error::InvalidBitstream,
        ),
        b + 4 <= input.len() && input[b + 2] + 256 * input[b + 3] == 65535 - (input[b] + 256
            * input[b + 1]) && b + 4 + input[b] + 256 * input[b + 1] > input.len() ==> stored_block(
            input,
            pos,
            out,
        ) == Err::<(int, Seq<u8>), Error>(Error::Underflow),
{
    assert((pos + 7) / 8 == b);
}

/// A stream of a block that is not the last followed by a last block,
/// whatever their types, decodes to what the second block appends to the
/// first block's output.
pub proof fn lemma_two_blocks(input: Seq<u8>, q: int, o1: Seq<u8>, q2: int, o2: Seq<u8>)
    requires
        bit_at(input, 0) == 0,
        inflate_block(input, 0, Seq::empty()) matches Ok((_, q1, p1)) && q1 == q && p1 == o1,
        bit_at(input, q) == 1,
        inflate_block(input, q, o1) matches Ok((_, r, p2)) && r == q2 && p2 == o2,
    ensures
        inflate(input) == Ok::<(int, Seq<u8>), Error>((q2, o2)),
        o1.len() <= o2.len() && o2.take(o1.len() as int) == o1,
{
    lemma_block_extends(input, q, o1);
    lemma_block_last_flag(input, 0, Seq::empty());
    lemma_block_last_flag(input, q, o1);
    lemma_blocks_follow(input, 0, Seq::empty());
    lemma_blocks_follow(input, q, o1);
}

/// Copying back only appends to the output.
proof fn lemma_copy_back_extends(out: Seq<u8>, dist: int, len: nat)
    ensures
        copy_back(out, dist, len).len() == out.len() + len,
        copy_back(out, dist, len).take(out.len() as int) == out,
    decreases len,
{
    if len > 0 {
        let next = out.push(out[out.len() - dist]);
        lemma_copy_back_extends(next, dist, (len - 1) as nat);
        assert(copy_back(out, dist, len).take(out.len() as int) =~= next.take(
            next.len() as int,
        ).take(out.len() as int));
    }
}

/// Decoding a coded block only appends to the output.
proof fn lemma_codes_extend(input: Seq<u8>, pos: int, out: Seq<u8>, lit: Seq<u8>, dist: Seq<u8>)
    ensures
        inflate_codes(input, pos, out, lit, dist) matches Ok((_, o)) ==> out.len() <= o.len()
            && o.take(out.len() as int) == out,
    decreases total_bits(input) - pos,
{
    lemma_decode_advances(lit, input, pos);
    match decode_symbol(lit, input, pos) {
        Err(_) => {},
        Ok((sym, p1)) => {
            if sym < 256 {
                let next = out.push(sym as u8);
                lemma_codes_extend(input, p1, next, lit, dist);
                match inflate_codes(input, p1, next, lit, dist) {
                    Ok((_, o)) => {
                        assert(o.take(out.len() as int) =~= o.take(next.len() as int).take(
                            out.len() as int,
                        ));
                    },
                    Err(_) => {},
                }
            } else if 256 < sym < 286 {
                lemma_match_advances(input, p1, sym, dist, out.len() as int);
                match decode_match(input, p1, sym, dist, out.len() as int) {
                    Err(_) => {},
                    Ok((len, d, p4)) => {
                        let next = copy_back(out, d, len as nat);
                        lemma_copy_back_extends(out, d, len as nat);
                        lemma_codes_extend(input, p4, next, lit, dist);
                        match inflate_codes(input, p4, next, lit, dist) {
                            Ok((_, o)) => {
                                assert(o.take(out.len() as int) =~= o.take(next.len() as int).take(
                                    out.len() as int,
                                ));
                            },
                            Err(_) => {},
                        }
                    },
                }
            }
        },
    }
}

/// Decoding a block, of any type, only appends to the output: what was
/// decoded before stays as it was.
pub proof fn lemma_block_extends(input: Seq<u8>, pos: int, out: Seq<u8>)
    ensures
        inflate_block(input, pos, out) matches Ok((_, _, o)) ==> out.len() <= o.len() && o.take(
            out.len() as int,
        ) == out,
{
    reveal(inflate_block);
    match take_bits(input, pos, 3) {
        Err(_) => {},
        Ok((header, p1)) => {
            let btype = header / 2;
            if btype == 0 {
                match stored_block(input, p1, out) {
                    Ok((_, o)) => {
                        assert(o.take(out.len() as int) =~= out);
                    },
                    Err(_) => {},
                }
            } else if btype == 1 {
                lemma_codes_extend(input, p1, out, fixed_lit_lengths(), fixed_dist_lengths());
            } else if btype == 2 {
                match dynamic_tables(input, p1) {
                    Err(_) => {},
                    Ok((lit, dist, p2)) => {
                        lemma_codes_extend(input, p2, out, lit, dist);
                    },
                }
            }
        },
    }
}

} // verus!
