//! The fixed Huffman codes of DEFLATE (RFC 1951, section 3.2.6): their
//! canonical tables, and the codes an encoder writes for them.
use vstd::prelude::*;
use crate::bits::{bit_at, pow2_small};
use crate::bitwriter::{
    bit_value, bits_at, holds_bits, lemma_bits_at_split, lemma_lsb_bits_number,
    lemma_msb_bits_len, lemma_read_bits_number, lsb_bits, msb_bits, packed, BitWriter,
};
use crate::huffman::{
    code_count, decode_symbol, lemma_decode_step_hit, lemma_decode_step_on, symbols_of_length,
};
use crate::inflate::{
    copy_back, decode_match, fixed_dist_lengths, fixed_lit_lengths, inflate_codes,
    lemma_codes_end_step, lemma_codes_literal_step, lemma_codes_match_step, take_bits, DIST_EXTRA,
    LENGTH_EXTRA,
};
use crate::lz77::{match_dist, match_len, replay, token_fits, Token};

verus! {

/// Appending symbols that all have length `len` extends the list of symbols
/// of that length by them, in order.
proof fn lemma_symbols_run_in(lengths: Seq<u8>, len: int, a: nat, b: nat)
    requires
        a <= b <= lengths.len(),
        b <= 65536,
        forall|i: int| a <= i < b ==> lengths[i] == len,
    ensures
        symbols_of_length(lengths, len, b) =~= symbols_of_length(lengths, len, a) + Seq::new(
            (b - a) as nat,
            |i: int| (a + i) as u16,
        ),
    decreases b,
{
    if b > a {
        lemma_symbols_run_in(lengths, len, a, (b - 1) as nat);
    }
}

/// Symbols of another length leave the list unchanged.
proof fn lemma_symbols_run_out(lengths: Seq<u8>, len: int, a: nat, b: nat)
    requires
        a <= b <= lengths.len(),
        forall|i: int| a <= i < b ==> lengths[i] != len,
    ensures
        symbols_of_length(lengths, len, b) == symbols_of_length(lengths, len, a),
    decreases b,
{
    if b > a {
        lemma_symbols_run_out(lengths, len, a, (b - 1) as nat);
    }
}

/// The canonical table of the fixed literal/length code: 24 codes of seven
/// bits (256 to 279), 152 of eight (0 to 143, then 280 to 287) and 112 of
/// nine (144 to 255).
pub proof fn lemma_fixed_lit_table()
    ensures
        fixed_lit_lengths().len() == 288,
        code_count(fixed_lit_lengths(), 1) == 0,
        code_count(fixed_lit_lengths(), 2) == 0,
        code_count(fixed_lit_lengths(), 3) == 0,
        code_count(fixed_lit_lengths(), 4) == 0,
        code_count(fixed_lit_lengths(), 5) == 0,
        code_count(fixed_lit_lengths(), 6) == 0,
        code_count(fixed_lit_lengths(), 7) == 24,
        code_count(fixed_lit_lengths(), 8) == 152,
        code_count(fixed_lit_lengths(), 9) == 112,
        forall|i: int|
            0 <= i < 24 ==> #[trigger] symbols_of_length(fixed_lit_lengths(), 7, 288)[i] == (256
                + i) as u16,
        forall|i: int|
            0 <= i < 144 ==> #[trigger] symbols_of_length(fixed_lit_lengths(), 8, 288)[i]
                == i as u16,
        forall|i: int|
            144 <= i < 152 ==> #[trigger] symbols_of_length(fixed_lit_lengths(), 8, 288)[i] == (136
                + i) as u16,
        forall|i: int|
            0 <= i < 112 ==> #[trigger] symbols_of_length(fixed_lit_lengths(), 9, 288)[i] == (144
                + i) as u16,
{
    let f = fixed_lit_lengths();
    // length 7: symbols 256 to 279
    lemma_symbols_run_out(f, 7, 0, 256);
    lemma_symbols_run_in(f, 7, 256, 280);
    lemma_symbols_run_out(f, 7, 280, 288);
    // length 8: symbols 0 to 143 and 280 to 287
    lemma_symbols_run_in(f, 8, 0, 144);
    lemma_symbols_run_out(f, 8, 144, 280);
    lemma_symbols_run_in(f, 8, 280, 288);
    // length 9: symbols 144 to 255
    lemma_symbols_run_out(f, 9, 0, 144);
    lemma_symbols_run_in(f, 9, 144, 256);
    lemma_symbols_run_out(f, 9, 256, 288);
    // no codes of lengths 1 to 6
    lemma_symbols_run_out(f, 1, 0, 288);
    lemma_symbols_run_out(f, 2, 0, 288);
    lemma_symbols_run_out(f, 3, 0, 288);
    lemma_symbols_run_out(f, 4, 0, 288);
    lemma_symbols_run_out(f, 5, 0, 288);
    lemma_symbols_run_out(f, 6, 0, 288);
}

/// The canonical table of the fixed distance code: 30 codes of five bits.
pub proof fn lemma_fixed_dist_table()
    ensures
        fixed_dist_lengths().len() == 30,
        code_count(fixed_dist_lengths(), 1) == 0,
        code_count(fixed_dist_lengths(), 2) == 0,
        code_count(fixed_dist_lengths(), 3) == 0,
        code_count(fixed_dist_lengths(), 4) == 0,
        code_count(fixed_dist_lengths(), 5) == 30,
        forall|i: int|
            0 <= i < 30 ==> #[trigger] symbols_of_length(fixed_dist_lengths(), 5, 30)[i]
                == i as u16,
{
    let d = fixed_dist_lengths();
    lemma_symbols_run_in(d, 5, 0, 30);
    lemma_symbols_run_out(d, 1, 0, 30);
    lemma_symbols_run_out(d, 2, 0, 30);
    lemma_symbols_run_out(d, 3, 0, 30);
    lemma_symbols_run_out(d, 4, 0, 30);
}

/// The code of literal/length symbol `sym` in the fixed code, and its length.
pub open spec fn fixed_lit_code(sym: int) -> (int, nat) {
    if sym < 144 {
        (48 + sym, 8)
    } else if sym < 256 {
        (256 + sym, 9)
    } else if sym < 280 {
        (sym - 256, 7)
    } else {
        (sym - 88, 8)
    }
}

/// The eight bits of a byte, most significant first.
#[verifier::spinoff_prover]
#[verifier::rlimit(30)]
proof fn lemma_msb_bits_8(v: int)
    requires
        0 <= v < 256,
    ensures
        msb_bits(v, 8) =~= seq![
            (v / 128) % 2 == 1,
            (v / 64) % 2 == 1,
            (v / 32) % 2 == 1,
            (v / 16) % 2 == 1,
            (v / 8) % 2 == 1,
            (v / 4) % 2 == 1,
            (v / 2) % 2 == 1,
            v % 2 == 1,
        ],
{
    lemma_msb_bits_7(v / 2);
    assert(msb_bits(v, 8) == msb_bits(v / 2, 7).push(v % 2 == 1));
}

/// The nine low bits of a number, most significant first.
#[verifier::spinoff_prover]
#[verifier::rlimit(30)]
proof fn lemma_msb_bits_9(v: int)
    requires
        0 <= v < 512,
    ensures
        msb_bits(v, 9) =~= seq![
            (v / 256) % 2 == 1,
            (v / 128) % 2 == 1,
            (v / 64) % 2 == 1,
            (v / 32) % 2 == 1,
            (v / 16) % 2 == 1,
            (v / 8) % 2 == 1,
            (v / 4) % 2 == 1,
            (v / 2) % 2 == 1,
            v % 2 == 1,
        ],
{
    lemma_msb_bits_8(v / 2);
    assert(msb_bits(v, 9) == msb_bits(v / 2, 8).push(v % 2 == 1));
}

/// The seven low bits of a number, most significant first.
#[verifier::spinoff_prover]
#[verifier::rlimit(30)]
proof fn lemma_msb_bits_7(v: int)
    requires
        0 <= v < 128,
    ensures
        msb_bits(v, 7) =~= seq![
            (v / 64) % 2 == 1,
            (v / 32) % 2 == 1,
            (v / 16) % 2 == 1,
            (v / 8) % 2 == 1,
            (v / 4) % 2 == 1,
            (v / 2) % 2 == 1,
            v % 2 == 1,
        ],
{
    reveal_with_fuel(msb_bits, 8);
}

/// The five low bits of a number, most significant first.
#[verifier::spinoff_prover]
#[verifier::rlimit(30)]
proof fn lemma_msb_bits_5(v: int)
    requires
        0 <= v < 32,
    ensures
        msb_bits(v, 5) =~= seq![
            (v / 16) % 2 == 1,
            (v / 8) % 2 == 1,
            (v / 4) % 2 == 1,
            (v / 2) % 2 == 1,
            v % 2 == 1,
        ],
{
    reveal_with_fuel(msb_bits, 6);
}

/// An eight-bit fixed code of a literal 0 to 143 decodes to it.
#[verifier::spinoff_prover]
#[verifier::rlimit(30)]
proof fn lemma_fixed_decode_low_literal(input: Seq<u8>, pos: int, sym: int)
    requires
        0 <= sym < 144,
        bits_at(input, pos, msb_bits(48 + sym, 8)),
    ensures
        decode_symbol(fixed_lit_lengths(), input, pos) == Ok::<(u16, int), crate::Error>(
            (sym as u16, pos + 8),
        ),
{
    let t = fixed_lit_lengths();
    let v = 48 + sym;
    lemma_msb_bits_8(v);
    lemma_fixed_lit_table();
    let bits = msb_bits(v, 8);
    assert(bit_at(input, pos + 0) == bit_value(bits[0]));
    assert(0 + bit_at(input, pos + 0) == v / 128);
    lemma_decode_step_on(t, input, pos + 0, 1, 0, 0);
    assert(bit_at(input, pos + 1) == bit_value(bits[1]));
    assert(2 * (v / 128) + bit_at(input, pos + 1) == v / 64);
    lemma_decode_step_on(t, input, pos + 1, 2, 2 * (v / 128), 0);
    assert(bit_at(input, pos + 2) == bit_value(bits[2]));
    assert(2 * (v / 64) + bit_at(input, pos + 2) == v / 32);
    lemma_decode_step_on(t, input, pos + 2, 3, 2 * (v / 64), 0);
    assert(bit_at(input, pos + 3) == bit_value(bits[3]));
    assert(2 * (v / 32) + bit_at(input, pos + 3) == v / 16);
    lemma_decode_step_on(t, input, pos + 3, 4, 2 * (v / 32), 0);
    assert(bit_at(input, pos + 4) == bit_value(bits[4]));
    assert(2 * (v / 16) + bit_at(input, pos + 4) == v / 8);
    lemma_decode_step_on(t, input, pos + 4, 5, 2 * (v / 16), 0);
    assert(bit_at(input, pos + 5) == bit_value(bits[5]));
    assert(2 * (v / 8) + bit_at(input, pos + 5) == v / 4);
    lemma_decode_step_on(t, input, pos + 5, 6, 2 * (v / 8), 0);
    assert(bit_at(input, pos + 6) == bit_value(bits[6]));
    assert(2 * (v / 4) + bit_at(input, pos + 6) == v / 2);
    lemma_decode_step_on(t, input, pos + 6, 7, 2 * (v / 4), 0);
    assert(bit_at(input, pos + 7) == bit_value(bits[7]));
    assert(2 * (v / 2) + bit_at(input, pos + 7) == v);
    lemma_decode_step_hit(t, input, pos + 7, 8, 2 * (v / 2), 48);
}

/// A nine-bit fixed code of a literal 144 to 255 decodes to it.
#[verifier::spinoff_prover]
#[verifier::rlimit(30)]
proof fn lemma_fixed_decode_high_literal(input: Seq<u8>, pos: int, sym: int)
    requires
        144 <= sym < 256,
        bits_at(input, pos, msb_bits(256 + sym, 9)),
    ensures
        decode_symbol(fixed_lit_lengths(), input, pos) == Ok::<(u16, int), crate::Error>(
            (sym as u16, pos + 9),
        ),
{
    let t = fixed_lit_lengths();
    let v = 256 + sym;
    lemma_msb_bits_9(v);
    lemma_fixed_lit_table();
    let bits = msb_bits(v, 9);
    assert(bit_at(input, pos + 0) == bit_value(bits[0]));
    assert(0 + bit_at(input, pos + 0) == v / 256);
    lemma_decode_step_on(t, input, pos + 0, 1, 0, 0);
    assert(bit_at(input, pos + 1) == bit_value(bits[1]));
    assert(2 * (v / 256) + bit_at(input, pos + 1) == v / 128);
    lemma_decode_step_on(t, input, pos + 1, 2, 2 * (v / 256), 0);
    assert(bit_at(input, pos + 2) == bit_value(bits[2]));
    assert(2 * (v / 128) + bit_at(input, pos + 2) == v / 64);
    lemma_decode_step_on(t, input, pos + 2, 3, 2 * (v / 128), 0);
    assert(bit_at(input, pos + 3) == bit_value(bits[3]));
    assert(2 * (v / 64) + bit_at(input, pos + 3) == v / 32);
    lemma_decode_step_on(t, input, pos + 3, 4, 2 * (v / 64), 0);
    assert(bit_at(input, pos + 4) == bit_value(bits[4]));
    assert(2 * (v / 32) + bit_at(input, pos + 4) == v / 16);
    lemma_decode_step_on(t, input, pos + 4, 5, 2 * (v / 32), 0);
    assert(bit_at(input, pos + 5) == bit_value(bits[5]));
    assert(2 * (v / 16) + bit_at(input, pos + 5) == v / 8);
    lemma_decode_step_on(t, input, pos + 5, 6, 2 * (v / 16), 0);
    assert(bit_at(input, pos + 6) == bit_value(bits[6]));
    assert(2 * (v / 8) + bit_at(input, pos + 6) == v / 4);
    lemma_decode_step_on(t, input, pos + 6, 7, 2 * (v / 8), 0);
    assert(bit_at(input, pos + 7) == bit_value(bits[7]));
    assert(2 * (v / 4) + bit_at(input, pos + 7) == v / 2);
    lemma_decode_step_on(t, input, pos + 7, 8, 2 * (v / 4), 48);
    assert(bit_at(input, pos + 8) == bit_value(bits[8]));
    assert(2 * (v / 2) + bit_at(input, pos + 8) == v);
    lemma_decode_step_hit(t, input, pos + 8, 9, 2 * (v / 2), 400);
}

/// A seven-bit fixed code of a symbol 256 to 279 decodes to it.
#[verifier::spinoff_prover]
#[verifier::rlimit(30)]
proof fn lemma_fixed_decode_short_symbol(input: Seq<u8>, pos: int, sym: int)
    requires
        256 <= sym < 280,
        bits_at(input, pos, msb_bits(sym - 256, 7)),
    ensures
        decode_symbol(fixed_lit_lengths(), input, pos) == Ok::<(u16, int), crate::Error>(
            (sym as u16, pos + 7),
        ),
{
    let t = fixed_lit_lengths();
    let v = sym - 256;
    lemma_msb_bits_7(v);
    lemma_fixed_lit_table();
    let bits = msb_bits(v, 7);
    assert(bit_at(input, pos + 0) == bit_value(bits[0]));
    assert(0 + bit_at(input, pos + 0) == v / 64);
    lemma_decode_step_on(t, input, pos + 0, 1, 0, 0);
    assert(bit_at(input, pos + 1) == bit_value(bits[1]));
    assert(2 * (v / 64) + bit_at(input, pos + 1) == v / 32);
    lemma_decode_step_on(t, input, pos + 1, 2, 2 * (v / 64), 0);
    assert(bit_at(input, pos + 2) == bit_value(bits[2]));
    assert(2 * (v / 32) + bit_at(input, pos + 2) == v / 16);
    lemma_decode_step_on(t, input, pos + 2, 3, 2 * (v / 32), 0);
    assert(bit_at(input, pos + 3) == bit_value(bits[3]));
    assert(2 * (v / 16) + bit_at(input, pos + 3) == v / 8);
    lemma_decode_step_on(t, input, pos + 3, 4, 2 * (v / 16), 0);
    assert(bit_at(input, pos + 4) == bit_value(bits[4]));
    assert(2 * (v / 8) + bit_at(input, pos + 4) == v / 4);
    lemma_decode_step_on(t, input, pos + 4, 5, 2 * (v / 8), 0);
    assert(bit_at(input, pos + 5) == bit_value(bits[5]));
    assert(2 * (v / 4) + bit_at(input, pos + 5) == v / 2);
    lemma_decode_step_on(t, input, pos + 5, 6, 2 * (v / 4), 0);
    assert(bit_at(input, pos + 6) == bit_value(bits[6]));
    assert(2 * (v / 2) + bit_at(input, pos + 6) == v);
    lemma_decode_step_hit(t, input, pos + 6, 7, 2 * (v / 2), 0);
}

/// An eight-bit fixed code of a symbol 280 to 287 decodes to it.
#[verifier::spinoff_prover]
#[verifier::rlimit(30)]
proof fn lemma_fixed_decode_long_symbol(input: Seq<u8>, pos: int, sym: int)
    requires
        280 <= sym < 288,
        bits_at(input, pos, msb_bits(sym - 88, 8)),
    ensures
        decode_symbol(fixed_lit_lengths(), input, pos) == Ok::<(u16, int), crate::Error>(
            (sym as u16, pos + 8),
        ),
{
    let t = fixed_lit_lengths();
    let v = sym - 88;
    lemma_msb_bits_8(v);
    lemma_fixed_lit_table();
    let bits = msb_bits(v, 8);
    assert(bit_at(input, pos + 0) == bit_value(bits[0]));
    assert(0 + bit_at(input, pos + 0) == v / 128);
    lemma_decode_step_on(t, input, pos + 0, 1, 0, 0);
    assert(bit_at(input, pos + 1) == bit_value(bits[1]));
    assert(2 * (v / 128) + bit_at(input, pos + 1) == v / 64);
    lemma_decode_step_on(t, input, pos + 1, 2, 2 * (v / 128), 0);
    assert(bit_at(input, pos + 2) == bit_value(bits[2]));
    assert(2 * (v / 64) + bit_at(input, pos + 2) == v / 32);
    lemma_decode_step_on(t, input, pos + 2, 3, 2 * (v / 64), 0);
    assert(bit_at(input, pos + 3) == bit_value(bits[3]));
    assert(2 * (v / 32) + bit_at(input, pos + 3) == v / 16);
    lemma_decode_step_on(t, input, pos + 3, 4, 2 * (v / 32), 0);
    assert(bit_at(input, pos + 4) == bit_value(bits[4]));
    assert(2 * (v / 16) + bit_at(input, pos + 4) == v / 8);
    lemma_decode_step_on(t, input, pos + 4, 5, 2 * (v / 16), 0);
    assert(bit_at(input, pos + 5) == bit_value(bits[5]));
    assert(2 * (v / 8) + bit_at(input, pos + 5) == v / 4);
    lemma_decode_step_on(t, input, pos + 5, 6, 2 * (v / 8), 0);
    assert(bit_at(input, pos + 6) == bit_value(bits[6]));
    assert(2 * (v / 4) + bit_at(input, pos + 6) == v / 2);
    lemma_decode_step_on(t, input, pos + 6, 7, 2 * (v / 4), 0);
    assert(bit_at(input, pos + 7) == bit_value(bits[7]));
    assert(2 * (v / 2) + bit_at(input, pos + 7) == v);
    lemma_decode_step_hit(t, input, pos + 7, 8, 2 * (v / 2), 48);
}

/// The fixed code of any literal/length symbol decodes to it.
pub proof fn lemma_fixed_lit_decode(input: Seq<u8>, pos: int, sym: int)
    requires
        0 <= sym < 288,
        bits_at(input, pos, msb_bits(fixed_lit_code(sym).0, fixed_lit_code(sym).1)),
    ensures
        decode_symbol(fixed_lit_lengths(), input, pos) == Ok::<(u16, int), crate::Error>(
            (sym as u16, pos + fixed_lit_code(sym).1),
        ),
{
    if sym < 144 {
        lemma_fixed_decode_low_literal(input, pos, sym);
    } else if sym < 256 {
        lemma_fixed_decode_high_literal(input, pos, sym);
    } else if sym < 280 {
        lemma_fixed_decode_short_symbol(input, pos, sym);
    } else {
        lemma_fixed_decode_long_symbol(input, pos, sym);
    }
}

/// The five-bit fixed code of a distance symbol decodes to it.
#[verifier::spinoff_prover]
pub proof fn lemma_fixed_dist_decode(input: Seq<u8>, pos: int, sym: int)
    requires
        0 <= sym < 30,
        bits_at(input, pos, msb_bits(sym, 5)),
    ensures
        decode_symbol(fixed_dist_lengths(), input, pos) == Ok::<(u16, int), crate::Error>(
            (sym as u16, pos + 5),
        ),
{
    let t = fixed_dist_lengths();
    let v = sym;
    lemma_msb_bits_5(v);
    lemma_fixed_dist_table();
    let bits = msb_bits(v, 5);
    assert(bit_at(input, pos + 0) == bit_value(bits[0]));
    assert(0 + bit_at(input, pos + 0) == v / 16);
    lemma_decode_step_on(t, input, pos + 0, 1, 0, 0);
    assert(bit_at(input, pos + 1) == bit_value(bits[1]));
    assert(2 * (v / 16) + bit_at(input, pos + 1) == v / 8);
    lemma_decode_step_on(t, input, pos + 1, 2, 2 * (v / 16), 0);
    assert(bit_at(input, pos + 2) == bit_value(bits[2]));
    assert(2 * (v / 8) + bit_at(input, pos + 2) == v / 4);
    lemma_decode_step_on(t, input, pos + 2, 3, 2 * (v / 8), 0);
    assert(bit_at(input, pos + 3) == bit_value(bits[3]));
    assert(2 * (v / 4) + bit_at(input, pos + 3) == v / 2);
    lemma_decode_step_on(t, input, pos + 3, 4, 2 * (v / 4), 0);
    assert(bit_at(input, pos + 4) == bit_value(bits[4]));
    assert(2 * (v / 2) + bit_at(input, pos + 4) == v);
    lemma_decode_step_hit(t, input, pos + 4, 5, 2 * (v / 2), 0);
}

/// The match slots: symbols 257 to 285, and extra bits fitting in 16 bits.
pub proof fn lemma_table_ranges()
    ensures
        forall|i: int| 0 <= i < 29 ==> LENGTH_EXTRA@[i] <= 5,
        forall|i: int| 0 <= i < 30 ==> DIST_EXTRA@[i] <= 13,
{
    crate::inflate::lemma_table_bounds();
}

/// The bits of one token in a block coded with the fixed code.
pub open spec fn token_bits(t: Token) -> Seq<bool> {
    match t {
        Token::Literal(b) => msb_bits(fixed_lit_code(b as int).0, fixed_lit_code(b as int).1),
        Token::Match { len_slot, len_extra, dist_slot, dist_extra } => {
            let sym = 257 + len_slot;
            msb_bits(fixed_lit_code(sym).0, fixed_lit_code(sym).1) + lsb_bits(
                len_extra as int,
                LENGTH_EXTRA@[len_slot as int] as nat,
            ) + msb_bits(dist_slot as int, 5) + lsb_bits(
                dist_extra as int,
                DIST_EXTRA@[dist_slot as int] as nat,
            )
        },
    }
}

/// The bits of a run of tokens.
pub open spec fn tokens_bits(tokens: Seq<Token>) -> Seq<bool>
    decreases tokens.len(),
{
    if tokens.len() == 0 {
        Seq::empty()
    } else {
        token_bits(tokens[0]) + tokens_bits(tokens.drop_first())
    }
}

/// The end-of-block code of the fixed code.
pub open spec fn end_of_block_bits() -> Seq<bool> {
    msb_bits(0, 7)
}

/// A whole block coded with the fixed code: the last-block flag, block
/// type 1, the tokens and the end-of-block code.
pub open spec fn fixed_block_bits(tokens: Seq<Token>, last: bool) -> Seq<bool> {
    seq![last, true, false] + tokens_bits(tokens) + end_of_block_bits()
}

/// Extra bits written least significant first are read back as the value.
pub proof fn lemma_take_extra(input: Seq<u8>, pos: int, v: int, n: nat)
    requires
        0 <= v < pow2_small(n),
        bits_at(input, pos, lsb_bits(v, n)),
    ensures
        take_bits(input, pos, n) == Ok::<(int, int), crate::Error>((v, pos + n)),
{
    lemma_lsb_bits_number(v, n);
    lemma_read_bits_number(input, pos, lsb_bits(v, n));
}

/// A match token coded with the fixed code decodes to its length and
/// distance.
proof fn lemma_fixed_match_decodes(input: Seq<u8>, pos: int, t: Token, out_len: int)
    requires
        t is Match,
        token_fits(t),
        match_dist(t) <= out_len,
        bits_at(input, pos, token_bits(t)),
    ensures
        match t {
            Token::Match { len_slot, .. } => {
                let sym = (257 + len_slot) as u16;
                let p1 = pos + fixed_lit_code(sym as int).1;
                &&& decode_symbol(fixed_lit_lengths(), input, pos) == Ok::<(u16, int), crate::Error>(
                    (sym, p1),
                )
                &&& 257 <= sym < 286
                &&& decode_match(input, p1, sym, fixed_dist_lengths(), out_len) == Ok::<
                    (int, int, int),
                    crate::Error,
                >((match_len(t), match_dist(t), pos + token_bits(t).len()))
            },
            Token::Literal(_) => true,
        },
{
    match t {
        Token::Match { len_slot, len_extra, dist_slot, dist_extra } => {
            let sym = 257 + len_slot;
            let a = msb_bits(fixed_lit_code(sym).0, fixed_lit_code(sym).1);
            let b = lsb_bits(len_extra as int, LENGTH_EXTRA@[len_slot as int] as nat);
            let c = msb_bits(dist_slot as int, 5);
            let d = lsb_bits(dist_extra as int, DIST_EXTRA@[dist_slot as int] as nat);
            assert(token_bits(t) == a + b + c + d);
            lemma_msb_bits_len(fixed_lit_code(sym).0, fixed_lit_code(sym).1);
            lemma_msb_bits_len(dist_slot as int, 5);
            lemma_table_ranges();
            lemma_bits_at_split(input, pos, a + b + c, d);
            lemma_bits_at_split(input, pos, a + b, c);
            lemma_bits_at_split(input, pos, a, b);
            lemma_fixed_lit_decode(input, pos, sym);
            lemma_lsb_bits_number(len_extra as int, LENGTH_EXTRA@[len_slot as int] as nat);
            lemma_lsb_bits_number(dist_extra as int, DIST_EXTRA@[dist_slot as int] as nat);
            let p1 = pos + a.len();
            lemma_take_extra(input, p1, len_extra as int, LENGTH_EXTRA@[len_slot as int] as nat);
            let p2 = p1 + b.len();
            lemma_fixed_dist_decode(input, p2, dist_slot as int);
            lemma_msb_bits_len(dist_slot as int, 5);
            let p3 = p2 + 5;
            lemma_take_extra(input, p3, dist_extra as int, DIST_EXTRA@[dist_slot as int] as nat);
            assert(p1 == pos + 7 || p1 == pos + 8);
            assert(decode_symbol(fixed_lit_lengths(), input, pos) == Ok::<(u16, int), crate::Error>(
                ((257 + len_slot) as u16, p1),
            ));
            assert(token_bits(t).len() == a.len() + b.len() + c.len() + d.len());
        },
        Token::Literal(_) => {},
    }
}

/// Tokens coded with the fixed code, followed by the end-of-block code,
/// decode to what the tokens replay to.
#[verifier::rlimit(30)]
pub proof fn lemma_fixed_tokens_decode(input: Seq<u8>, pos: int, tokens: Seq<Token>, out: Seq<u8>)
    requires
        bits_at(input, pos, tokens_bits(tokens) + end_of_block_bits()),
        replay(out, tokens) is Some,
    ensures
        inflate_codes(input, pos, out, fixed_lit_lengths(), fixed_dist_lengths()) == Ok::<
            (int, Seq<u8>),
            crate::Error,
        >((pos + tokens_bits(tokens).len() + 7, replay(out, tokens)->0)),
    decreases tokens.len(),
{
    lemma_msb_bits_len(0, 7);
    if tokens.len() == 0 {
        assert(tokens_bits(tokens) + end_of_block_bits() =~= end_of_block_bits());
        lemma_fixed_lit_decode(input, pos, 256);
        lemma_codes_end_step(input, pos, out, fixed_lit_lengths(), fixed_dist_lengths(), pos + 7);
    } else {
        let t = tokens[0];
        let rest = tokens.drop_first();
        assert(tokens_bits(tokens) + end_of_block_bits() =~= token_bits(t) + (tokens_bits(rest)
            + end_of_block_bits()));
        lemma_bits_at_split(input, pos, token_bits(t), tokens_bits(rest) + end_of_block_bits());
        let p = pos + token_bits(t).len();
        match t {
            Token::Literal(b) => {
                lemma_msb_bits_len(fixed_lit_code(b as int).0, fixed_lit_code(b as int).1);
                lemma_fixed_lit_decode(input, pos, b as int);
                lemma_codes_literal_step(
                    input,
                    pos,
                    out,
                    fixed_lit_lengths(),
                    fixed_dist_lengths(),
                    b as u16,
                    p,
                );
                lemma_fixed_tokens_decode(input, p, rest, out.push(b));
            },
            Token::Match { len_slot, .. } => {
                lemma_fixed_match_decodes(input, pos, t, out.len() as int);
                let sym = (257 + len_slot) as u16;
                lemma_codes_match_step(
                    input,
                    pos,
                    out,
                    fixed_lit_lengths(),
                    fixed_dist_lengths(),
                    sym,
                    pos + fixed_lit_code(sym as int).1,
                    match_len(t),
                    match_dist(t),
                    p,
                );
                lemma_fixed_tokens_decode(
                    input,
                    p,
                    rest,
                    copy_back(out, match_dist(t), match_len(t) as nat),
                );
            },
        }
    }
}

/// The bits of tokens followed by one more are theirs followed by its.
pub proof fn lemma_tokens_bits_push(tokens: Seq<Token>, t: Token)
    ensures
        tokens_bits(tokens.push(t)) == tokens_bits(tokens) + token_bits(t),
    decreases tokens.len(),
{
    if tokens.len() == 0 {
        assert(tokens.push(t).drop_first() =~= Seq::<Token>::empty());
        assert(tokens_bits(Seq::<Token>::empty()) == Seq::<bool>::empty());
        assert(tokens_bits(tokens.push(t)) =~= token_bits(t));
        assert(tokens_bits(tokens) + token_bits(t) =~= token_bits(t));
    } else {
        assert(tokens.push(t).drop_first() =~= tokens.drop_first().push(t));
        lemma_tokens_bits_push(tokens.drop_first(), t);
        assert(tokens_bits(tokens.push(t)) =~= tokens_bits(tokens) + token_bits(t));
    }
}

/// Writes the fixed code of one token.
fn write_token(w: &mut BitWriter, t: Token)
    requires
        old(w).wf(),
        token_fits(t),
    ensures
        final(w).wf(),
        final(w).written() == old(w).written() + token_bits(t),
{
    match t {
        Token::Literal(b) => {
            if b < 144 {
                w.write_msb(48 + b as u32, 8);
            } else {
                w.write_msb(256 + b as u32, 9);
            }
        },
        Token::Match { len_slot, len_extra, dist_slot, dist_extra } => {
            let sym = 257 + len_slot as u32;
            let ghost w0 = w.written();
            if sym < 280 {
                w.write_msb(sym - 256, 7);
            } else {
                w.write_msb(sym - 88, 8);
            }
            w.write_lsb(len_extra as u32, LENGTH_EXTRA[len_slot as usize]);
            w.write_msb(dist_slot as u32, 5);
            w.write_lsb(dist_extra as u32, DIST_EXTRA[dist_slot as usize]);
            assert(w.written() =~= w0 + token_bits(t));
        },
    }
}

/// The bytes of one final block coded with the fixed code, holding `tokens`.
pub fn write_fixed_block(tokens: &Vec<Token>) -> (r: Vec<u8>)
    requires
        forall|k: int| 0 <= k < tokens@.len() ==> token_fits(#[trigger] tokens@[k]),
    ensures
        holds_bits(r@, fixed_block_bits(tokens@, true)),
        r@ == packed(fixed_block_bits(tokens@, true)),
{
    let mut w = BitWriter::new();
    w.write_bit(true);
    w.write_bit(true);
    w.write_bit(false);
    let ghost header = seq![true, true, false];
    assert(w.written() =~= header);
    let mut k: usize = 0;
    while k < tokens.len()
        invariant
            k <= tokens@.len(),
            w.wf(),
            w.written() == header + tokens_bits(tokens@.take(k as int)),
            forall|j: int| 0 <= j < tokens@.len() ==> token_fits(#[trigger] tokens@[j]),
        decreases tokens@.len() - k,
    {
        let t = tokens[k];
        write_token(&mut w, t);
        proof {
            lemma_tokens_bits_push(tokens@.take(k as int), t);
            assert(tokens@.take(k as int).push(t) =~= tokens@.take(k + 1));
        }
        k = k + 1;
    }
    assert(tokens@.take(k as int) =~= tokens@);
    w.write_msb(0, 7);
    assert(w.written() =~= fixed_block_bits(tokens@, true));
    w.finish()
}

} // verus!
