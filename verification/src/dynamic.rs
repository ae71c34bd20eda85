//! Blocks coded with a Huffman code of the encoder's choosing (dynamic
//! blocks, RFC 1951 section 3.2.7): what their bits are, and that they
//! decode to the tokens they hold.
use vstd::prelude::*;
use crate::bits::{lemma_pow2_small_16, lemma_pow2_small_step, lemma_pow2_small_values, pow2_small};
use crate::bitwriter::{
    bits_at, holds_bits, lemma_bits_at_split, lemma_lsb_bits_number, lemma_msb_bits_len,
    lemma_read_bits_number, lsb_bits, msb_bits, packed, BitWriter,
};
use crate::canonical::{canonical_code, canonical_codes, lemma_canonical_decode};
use crate::fixed::{lemma_table_ranges, lemma_take_extra};
use crate::huffman::{code_space_left, decode_symbol, symbols_of_length, Huffman, MAX_CODE_LEN};
use crate::inflate::{
    code_length_lengths, copy_back, decode_match, dynamic_tables, inflate_codes, is_usable,
    lemma_codes_end_step, lemma_codes_literal_step, lemma_codes_match_step, read_code_lengths,
    usable_code, CODE_LENGTH_ORDER, DIST_EXTRA, LENGTH_EXTRA,
};
use crate::lengths::{
    exact_code, huffman_lengths, huffman_spec, lemma_has_positive, lemma_positives_bound, lengths_fit, positives,
};
use crate::lz77::{match_dist, match_len, replay, token_fits, Token};

verus! {

/// The bits of symbol `s` in the canonical code with the given lengths.
pub open spec fn symbol_bits(lengths: Seq<u8>, s: int) -> Seq<bool> {
    msb_bits(canonical_code(lengths, s), lengths[s] as nat)
}

/// Symbol `s` has a code: its length is between 1 and 15.
pub open spec fn has_code(lengths: Seq<u8>, s: int) -> bool {
    0 <= s < lengths.len() && 1 <= lengths[s] <= MAX_CODE_LEN
}

/// A literal/length code and a distance code that can be decoded: not
/// oversubscribed, of at most 65536 symbols each, with a code for the end
/// of the block.
pub open spec fn tables_ok(lit: Seq<u8>, dist: Seq<u8>) -> bool {
    &&& lit.len() <= 65536
    &&& dist.len() <= 65536
    &&& code_space_left(lit, MAX_CODE_LEN as nat) >= 0
    &&& code_space_left(dist, MAX_CODE_LEN as nat) >= 0
    &&& has_code(lit, 256)
}

/// Every symbol that `t` needs has a code.
pub open spec fn token_codable(t: Token, lit: Seq<u8>, dist: Seq<u8>) -> bool {
    match t {
        Token::Literal(b) => has_code(lit, b as int),
        Token::Match { len_slot, dist_slot, .. } => has_code(lit, 257 + len_slot) && has_code(
            dist,
            dist_slot as int,
        ),
    }
}

/// The bits of one token in the given codes.
pub open spec fn coded_token_bits(t: Token, lit: Seq<u8>, dist: Seq<u8>) -> Seq<bool> {
    match t {
        Token::Literal(b) => symbol_bits(lit, b as int),
        Token::Match { len_slot, len_extra, dist_slot, dist_extra } => symbol_bits(
            lit,
            257 + len_slot,
        ) + lsb_bits(len_extra as int, LENGTH_EXTRA@[len_slot as int] as nat) + symbol_bits(
            dist,
            dist_slot as int,
        ) + lsb_bits(dist_extra as int, DIST_EXTRA@[dist_slot as int] as nat),
    }
}

/// The bits of a run of tokens in the given codes.
pub open spec fn coded_tokens_bits(tokens: Seq<Token>, lit: Seq<u8>, dist: Seq<u8>) -> Seq<bool>
    decreases tokens.len(),
{
    if tokens.len() == 0 {
        Seq::empty()
    } else {
        coded_token_bits(tokens[0], lit, dist) + coded_tokens_bits(tokens.drop_first(), lit, dist)
    }
}

/// A match token decodes to its length and distance.
proof fn lemma_coded_match_decodes(
    input: Seq<u8>,
    pos: int,
    t: Token,
    lit: Seq<u8>,
    dist: Seq<u8>,
    out_len: int,
)
    requires
        t is Match,
        token_fits(t),
        tables_ok(lit, dist),
        token_codable(t, lit, dist),
        match_dist(t) <= out_len,
        bits_at(input, pos, coded_token_bits(t, lit, dist)),
    ensures
        match t {
            Token::Match { len_slot, .. } => {
                let sym = (257 + len_slot) as u16;
                let p1 = pos + lit[sym as int];
                &&& decode_symbol(lit, input, pos) == Ok::<(u16, int), crate::Error>((sym, p1))
                &&& 257 <= sym < 286
                &&& decode_match(input, p1, sym, dist, out_len) == Ok::<
                    (int, int, int),
                    crate::Error,
                >((match_len(t), match_dist(t), pos + coded_token_bits(t, lit, dist).len()))
            },
            Token::Literal(_) => true,
        },
{
    match t {
        Token::Match { len_slot, len_extra, dist_slot, dist_extra } => {
            let sym = 257 + len_slot;
            let a = symbol_bits(lit, sym);
            let b = lsb_bits(len_extra as int, LENGTH_EXTRA@[len_slot as int] as nat);
            let c = symbol_bits(dist, dist_slot as int);
            let d = lsb_bits(dist_extra as int, DIST_EXTRA@[dist_slot as int] as nat);
            assert(coded_token_bits(t, lit, dist) == a + b + c + d);
            lemma_msb_bits_len(canonical_code(lit, sym), lit[sym] as nat);
            lemma_msb_bits_len(canonical_code(dist, dist_slot as int), dist[dist_slot as int] as nat);
            lemma_table_ranges();
            lemma_bits_at_split(input, pos, a + b + c, d);
            lemma_bits_at_split(input, pos, a + b, c);
            lemma_bits_at_split(input, pos, a, b);
            lemma_canonical_decode(lit, input, pos, sym);
            lemma_lsb_bits_number(len_extra as int, LENGTH_EXTRA@[len_slot as int] as nat);
            lemma_lsb_bits_number(dist_extra as int, DIST_EXTRA@[dist_slot as int] as nat);
            let p1 = pos + a.len();
            lemma_take_extra(input, p1, len_extra as int, LENGTH_EXTRA@[len_slot as int] as nat);
            let p2 = p1 + b.len();
            lemma_canonical_decode(dist, input, p2, dist_slot as int);
            let p3 = p2 + c.len();
            lemma_take_extra(input, p3, dist_extra as int, DIST_EXTRA@[dist_slot as int] as nat);
            assert(coded_token_bits(t, lit, dist).len() == a.len() + b.len() + c.len() + d.len());
        },
        Token::Literal(_) => {},
    }
}

/// Tokens in the given codes, followed by the end-of-block code, decode to
/// what the tokens replay to.
#[verifier::rlimit(30)]
pub proof fn lemma_coded_tokens_decode(
    input: Seq<u8>,
    pos: int,
    tokens: Seq<Token>,
    out: Seq<u8>,
    lit: Seq<u8>,
    dist: Seq<u8>,
)
    requires
        tables_ok(lit, dist),
        forall|k: int| 0 <= k < tokens.len() ==> token_codable(#[trigger] tokens[k], lit, dist),
        bits_at(input, pos, coded_tokens_bits(tokens, lit, dist) + symbol_bits(lit, 256)),
        replay(out, tokens) is Some,
    ensures
        inflate_codes(input, pos, out, lit, dist) == Ok::<(int, Seq<u8>), crate::Error>(
            (
                pos + coded_tokens_bits(tokens, lit, dist).len() + lit[256],
                replay(out, tokens)->0,
            ),
        ),
    decreases tokens.len(),
{
    lemma_msb_bits_len(canonical_code(lit, 256), lit[256] as nat);
    if tokens.len() == 0 {
        assert(coded_tokens_bits(tokens, lit, dist) + symbol_bits(lit, 256) =~= symbol_bits(
            lit,
            256,
        ));
        lemma_canonical_decode(lit, input, pos, 256);
        lemma_codes_end_step(input, pos, out, lit, dist, pos + lit[256]);
    } else {
        let t = tokens[0];
        let rest = tokens.drop_first();
        assert(token_codable(tokens[0], lit, dist));
        assert forall|k: int| 0 <= k < rest.len() implies token_codable(
            #[trigger] rest[k],
            lit,
            dist,
        ) by {
            assert(rest[k] == tokens[k + 1]);
        }
        assert(coded_tokens_bits(tokens, lit, dist) + symbol_bits(lit, 256) =~= coded_token_bits(
            t,
            lit,
            dist,
        ) + (coded_tokens_bits(rest, lit, dist) + symbol_bits(lit, 256)));
        lemma_bits_at_split(
            input,
            pos,
            coded_token_bits(t, lit, dist),
            coded_tokens_bits(rest, lit, dist) + symbol_bits(lit, 256),
        );
        let p = pos + coded_token_bits(t, lit, dist).len();
        match t {
            Token::Literal(b) => {
                lemma_msb_bits_len(canonical_code(lit, b as int), lit[b as int] as nat);
                lemma_canonical_decode(lit, input, pos, b as int);
                lemma_codes_literal_step(input, pos, out, lit, dist, b as u16, p);
                lemma_coded_tokens_decode(input, p, rest, out.push(b), lit, dist);
            },
            Token::Match { len_slot, .. } => {
                lemma_coded_match_decodes(input, pos, t, lit, dist, out.len() as int);
                let sym = (257 + len_slot) as u16;
                lemma_codes_match_step(
                    input,
                    pos,
                    out,
                    lit,
                    dist,
                    sym,
                    pos + lit[sym as int],
                    match_len(t),
                    match_dist(t),
                    p,
                );
                lemma_coded_tokens_decode(
                    input,
                    p,
                    rest,
                    copy_back(out, match_dist(t), match_len(t) as nat),
                    lit,
                    dist,
                );
            },
        }
    }
}

/// Where symbol `i` of the code length code stands in `CODE_LENGTH_ORDER`.
pub open spec fn code_length_slot(i: int) -> int {
    if i == 0 {
        3
    } else if i == 1 {
        17
    } else if i == 2 {
        15
    } else if i == 3 {
        13
    } else if i == 4 {
        11
    } else if i == 5 {
        9
    } else if i == 6 {
        7
    } else if i == 7 {
        5
    } else if i == 8 {
        4
    } else if i == 9 {
        6
    } else if i == 10 {
        8
    } else if i == 11 {
        10
    } else if i == 12 {
        12
    } else if i == 13 {
        14
    } else if i == 14 {
        16
    } else if i == 15 {
        18
    } else if i == 16 {
        0
    } else if i == 17 {
        1
    } else {
        2
    }
}

/// `CODE_LENGTH_ORDER` and `code_length_slot` undo each other.
proof fn lemma_code_length_order()
    ensures
        forall|i: int| 0 <= i < 19 ==> 0 <= #[trigger] code_length_slot(i) < 19
            && CODE_LENGTH_ORDER@[code_length_slot(i)] == i,
        forall|j: int| 0 <= j < 19 ==> code_length_slot(#[trigger] CODE_LENGTH_ORDER@[j] as int)
            == j && CODE_LENGTH_ORDER@[j] < 19,
{
    assert forall|i: int| 0 <= i < 19 implies 0 <= #[trigger] code_length_slot(i) < 19
        && CODE_LENGTH_ORDER@[code_length_slot(i)] == i by {
        if i == 0 {
            assert(CODE_LENGTH_ORDER@[3] == 0);
        } else if i == 1 {
            assert(CODE_LENGTH_ORDER@[17] == 1);
        } else if i == 2 {
            assert(CODE_LENGTH_ORDER@[15] == 2);
        } else if i == 3 {
            assert(CODE_LENGTH_ORDER@[13] == 3);
        } else if i == 4 {
            assert(CODE_LENGTH_ORDER@[11] == 4);
        } else if i == 5 {
            assert(CODE_LENGTH_ORDER@[9] == 5);
        } else if i == 6 {
            assert(CODE_LENGTH_ORDER@[7] == 6);
        } else if i == 7 {
            assert(CODE_LENGTH_ORDER@[5] == 7);
        } else if i == 8 {
            assert(CODE_LENGTH_ORDER@[4] == 8);
        } else if i == 9 {
            assert(CODE_LENGTH_ORDER@[6] == 9);
        } else if i == 10 {
            assert(CODE_LENGTH_ORDER@[8] == 10);
        } else if i == 11 {
            assert(CODE_LENGTH_ORDER@[10] == 11);
        } else if i == 12 {
            assert(CODE_LENGTH_ORDER@[12] == 12);
        } else if i == 13 {
            assert(CODE_LENGTH_ORDER@[14] == 13);
        } else if i == 14 {
            assert(CODE_LENGTH_ORDER@[16] == 14);
        } else if i == 15 {
            assert(CODE_LENGTH_ORDER@[18] == 15);
        } else if i == 16 {
            assert(CODE_LENGTH_ORDER@[0] == 16);
        } else if i == 17 {
            assert(CODE_LENGTH_ORDER@[1] == 17);
        } else if i == 18 {
            assert(CODE_LENGTH_ORDER@[2] == 18);
        }
    }
    assert forall|j: int| 0 <= j < 19 implies code_length_slot(#[trigger] CODE_LENGTH_ORDER@[j] as int)
        == j && CODE_LENGTH_ORDER@[j] < 19 by {
        if j == 0 {
            assert(CODE_LENGTH_ORDER@[0] == 16);
        } else if j == 1 {
            assert(CODE_LENGTH_ORDER@[1] == 17);
        } else if j == 2 {
            assert(CODE_LENGTH_ORDER@[2] == 18);
        } else if j == 3 {
            assert(CODE_LENGTH_ORDER@[3] == 0);
        } else if j == 4 {
            assert(CODE_LENGTH_ORDER@[4] == 8);
        } else if j == 5 {
            assert(CODE_LENGTH_ORDER@[5] == 7);
        } else if j == 6 {
            assert(CODE_LENGTH_ORDER@[6] == 9);
        } else if j == 7 {
            assert(CODE_LENGTH_ORDER@[7] == 6);
        } else if j == 8 {
            assert(CODE_LENGTH_ORDER@[8] == 10);
        } else if j == 9 {
            assert(CODE_LENGTH_ORDER@[9] == 5);
        } else if j == 10 {
            assert(CODE_LENGTH_ORDER@[10] == 11);
        } else if j == 11 {
            assert(CODE_LENGTH_ORDER@[11] == 4);
        } else if j == 12 {
            assert(CODE_LENGTH_ORDER@[12] == 12);
        } else if j == 13 {
            assert(CODE_LENGTH_ORDER@[13] == 3);
        } else if j == 14 {
            assert(CODE_LENGTH_ORDER@[14] == 13);
        } else if j == 15 {
            assert(CODE_LENGTH_ORDER@[15] == 2);
        } else if j == 16 {
            assert(CODE_LENGTH_ORDER@[16] == 14);
        } else if j == 17 {
            assert(CODE_LENGTH_ORDER@[17] == 1);
        } else if j == 18 {
            assert(CODE_LENGTH_ORDER@[18] == 15);
        }
    }
}

/// The first `k` code lengths of the code length code, three bits each in
/// the order of `CODE_LENGTH_ORDER`.
pub open spec fn code_length_code_bits(clens: Seq<u8>, k: nat) -> Seq<bool>
    decreases k,
{
    if k == 0 {
        Seq::empty()
    } else {
        code_length_code_bits(clens, (k - 1) as nat) + lsb_bits(
            clens[CODE_LENGTH_ORDER@[k - 1] as int] as int,
            3,
        )
    }
}

/// One instruction of the list of code lengths in a dynamic header.
#[derive(Copy, Clone)]
pub enum LengthOp {
    /// One code length from 0 to 15 (symbols 0 to 15).
    Single(u8),
    /// The previous length repeated 3 to 6 times (symbol 16).
    RepeatLast(u8),
    /// 3 to 138 zero lengths (symbol 17 up to 10, symbol 18 from 11).
    Zeros(u8),
}

/// The code length symbol of an instruction.
pub open spec fn op_symbol(op: LengthOp) -> int {
    match op {
        LengthOp::Single(v) => v as int,
        LengthOp::RepeatLast(_) => 16,
        LengthOp::Zeros(c) => if c <= 10 {
            17
        } else {
            18
        },
    }
}

/// The extra bits of an instruction: their value and how many there are.
pub open spec fn op_extra(op: LengthOp) -> (int, nat) {
    match op {
        LengthOp::Single(_) => (0, 0),
        LengthOp::RepeatLast(c) => (c - 3, 2),
        LengthOp::Zeros(c) => if c <= 10 {
            (c - 3, 3)
        } else {
            (c - 11, 7)
        },
    }
}

/// An instruction's count is in its symbol's range.
pub open spec fn op_ok(op: LengthOp) -> bool {
    match op {
        LengthOp::Single(v) => v <= 15,
        LengthOp::RepeatLast(c) => 3 <= c <= 6,
        LengthOp::Zeros(c) => 3 <= c <= 138,
    }
}

/// The bits of an instruction: its symbol's code, then its extra bits.
pub open spec fn op_bits(op: LengthOp, clens: Seq<u8>) -> Seq<bool> {
    symbol_bits(clens, op_symbol(op)) + lsb_bits(op_extra(op).0, op_extra(op).1)
}

/// The code lengths after `acc` once an instruction is carried out.
pub open spec fn apply_op(acc: Seq<u8>, op: LengthOp) -> Seq<u8> {
    match op {
        LengthOp::Single(v) => acc.push(v),
        LengthOp::RepeatLast(c) => acc + Seq::new(c as nat, |i: int| acc.last()),
        LengthOp::Zeros(c) => acc + Seq::new(c as nat, |i: int| 0u8),
    }
}

/// The bits of a list of instructions.
pub open spec fn ops_bits(ops: Seq<LengthOp>, clens: Seq<u8>) -> Seq<bool>
    decreases ops.len(),
{
    if ops.len() == 0 {
        Seq::empty()
    } else {
        op_bits(ops[0], clens) + ops_bits(ops.drop_first(), clens)
    }
}

/// The code lengths after `acc` once the instructions are carried out.
pub open spec fn apply_ops(acc: Seq<u8>, ops: Seq<LengthOp>) -> Seq<u8>
    decreases ops.len(),
{
    if ops.len() == 0 {
        acc
    } else {
        apply_ops(apply_op(acc, ops[0]), ops.drop_first())
    }
}

/// Every instruction is in range, and no repeat comes before a length.
pub open spec fn ops_shape_ok(acc: Seq<u8>, ops: Seq<LengthOp>) -> bool
    decreases ops.len(),
{
    if ops.len() == 0 {
        true
    } else {
        &&& op_ok(ops[0])
        &&& (ops[0] is RepeatLast ==> acc.len() > 0)
        &&& ops_shape_ok(apply_op(acc, ops[0]), ops.drop_first())
    }
}

/// Every symbol the instructions use has a code.
pub open spec fn ops_coded(ops: Seq<LengthOp>, clens: Seq<u8>) -> bool {
    forall|k: int| 0 <= k < ops.len() ==> has_code(clens, op_symbol(#[trigger] ops[k]))
}

/// The header of a dynamic block after its first three bits: the counts of
/// literal/length, distance and code length codes, the code length code,
/// then the code lengths.
pub open spec fn dynamic_header_bits(
    lit: Seq<u8>,
    dist: Seq<u8>,
    clens: Seq<u8>,
    ops: Seq<LengthOp>,
) -> Seq<bool> {
    lsb_bits(lit.len() - 257, 5) + lsb_bits(dist.len() - 1, 5) + lsb_bits(15, 4)
        + code_length_code_bits(clens, 19) + ops_bits(ops, clens)
}

/// Code tables that a dynamic header can carry and a decoder accepts.
pub open spec fn header_ok(
    lit: Seq<u8>,
    dist: Seq<u8>,
    clens: Seq<u8>,
    ops: Seq<LengthOp>,
) -> bool {
    &&& 257 <= lit.len() <= 286
    &&& 1 <= dist.len() <= 30
    &&& clens.len() == 19
    &&& forall|i: int| 0 <= i < 19 ==> #[trigger] clens[i] < 8
    &&& code_space_left(clens, MAX_CODE_LEN as nat) == 0
    &&& ops_shape_ok(Seq::empty(), ops)
    &&& ops_coded(ops, clens)
    &&& apply_ops(Seq::empty(), ops) == lit + dist
    &&& has_code(lit, 256)
    &&& usable_code(lit)
    &&& usable_code(dist)
}

/// The code length code read back from its bits is the one written.
proof fn lemma_code_length_code_reads(input: Seq<u8>, pos: int, clens: Seq<u8>, k: nat)
    requires
        k <= 19,
        clens.len() == 19,
        forall|i: int| 0 <= i < 19 ==> #[trigger] clens[i] < 8,
        bits_at(input, pos, code_length_code_bits(clens, k)),
    ensures
        code_length_code_bits(clens, k).len() == 3 * k,
        code_length_lengths(input, pos, k) =~= Seq::new(
            19,
            |i: int|
                if code_length_slot(i) < k {
                    clens[i]
                } else {
                    0u8
                },
        ),
    decreases k,
{
    lemma_code_length_order();
    if k > 0 {
        let j = k - 1;
        let sym = CODE_LENGTH_ORDER@[j] as int;
        let v = clens[sym] as int;
        let prev = code_length_code_bits(clens, (k - 1) as nat);
        lemma_bits_at_split(input, pos, prev, lsb_bits(v, 3));
        lemma_code_length_code_reads(input, pos, clens, (k - 1) as nat);
        crate::bits::lemma_pow2_small_values();
        assert(v < pow2_small(3));
        lemma_lsb_bits_number(v, 3);
        lemma_read_bits_number(input, pos + 3 * j, lsb_bits(v, 3));
    }
}

/// Carrying out instructions never shortens the lengths, and adds at least
/// one length for each instruction in range.
proof fn lemma_apply_ops_grows(acc: Seq<u8>, ops: Seq<LengthOp>)
    requires
        ops_shape_ok(acc, ops),
    ensures
        apply_ops(acc, ops).len() >= acc.len() + ops.len(),
        apply_ops(acc, ops).take(acc.len() as int) =~= acc,
    decreases ops.len(),
{
    if ops.len() > 0 {
        let next = apply_op(acc, ops[0]);
        lemma_apply_ops_grows(next, ops.drop_first());
        assert(next.take(acc.len() as int) =~= acc);
        assert(apply_ops(acc, ops).take(acc.len() as int) =~= next.take(acc.len() as int)) by {
            assert(apply_ops(acc, ops).take(next.len() as int) =~= next);
        }
    }
}

/// One instruction is read back as the lengths it stands for.
proof fn lemma_op_read(
    input: Seq<u8>,
    pos: int,
    clens: Seq<u8>,
    count: nat,
    acc: Seq<u8>,
    op: LengthOp,
)
    requires
        clens.len() == 19,
        code_space_left(clens, MAX_CODE_LEN as nat) == 0,
        op_ok(op),
        op is RepeatLast ==> acc.len() > 0,
        has_code(clens, op_symbol(op)),
        apply_op(acc, op).len() <= count,
        bits_at(input, pos, op_bits(op, clens)),
    ensures
        read_code_lengths(input, pos, clens, count, acc) == read_code_lengths(
            input,
            pos + op_bits(op, clens).len(),
            clens,
            count,
            apply_op(acc, op),
        ),
{
    let sym = op_symbol(op);
    let a = symbol_bits(clens, sym);
    let (ev, en) = op_extra(op);
    let e = lsb_bits(ev, en);
    lemma_bits_at_split(input, pos, a, e);
    lemma_msb_bits_len(canonical_code(clens, sym), clens[sym] as nat);
    lemma_canonical_decode(clens, input, pos, sym);
    let p1 = pos + a.len();
    crate::bits::lemma_pow2_small_values();
    assert(0 <= ev < pow2_small(en));
    lemma_lsb_bits_number(ev, en);
    match op {
        LengthOp::Single(v) => {
            assert(e =~= Seq::<bool>::empty());
            crate::inflate::lemma_read_lengths_single(
                input,
                pos,
                clens,
                count,
                acc,
                v as u16,
                p1,
            );
        },
        _ => {
            lemma_take_extra(input, p1, ev, en);
            crate::inflate::lemma_read_lengths_run(
                input,
                pos,
                clens,
                count,
                acc,
                sym as u16,
                p1,
                ev,
                p1 + en,
            );
            match op {
                LengthOp::RepeatLast(c) => {
                    assert(apply_op(acc, op) =~= acc + Seq::new(
                        (3 + ev) as nat,
                        |i: int| acc.last(),
                    ));
                },
                _ => {
                    assert(apply_op(acc, op) =~= acc + Seq::new(
                        ((if sym == 18 {
                            11int
                        } else {
                            3int
                        }) + ev) as nat,
                        |i: int| 0u8,
                    ));
                },
            }
        },
    }
}

/// Instructions are read back as the lengths they stand for.
proof fn lemma_ops_read(
    input: Seq<u8>,
    pos: int,
    clens: Seq<u8>,
    count: nat,
    acc: Seq<u8>,
    ops: Seq<LengthOp>,
)
    requires
        clens.len() == 19,
        code_space_left(clens, MAX_CODE_LEN as nat) == 0,
        ops_shape_ok(acc, ops),
        ops_coded(ops, clens),
        apply_ops(acc, ops).len() == count,
        bits_at(input, pos, ops_bits(ops, clens)),
    ensures
        read_code_lengths(input, pos, clens, count, acc) == Ok::<(Seq<u8>, int), crate::Error>(
            (apply_ops(acc, ops), pos + ops_bits(ops, clens).len()),
        ),
    decreases ops.len(),
{
    if ops.len() == 0 {
    } else {
        let op = ops[0];
        let rest = ops.drop_first();
        let next = apply_op(acc, op);
        assert(ops_bits(ops, clens) == op_bits(op, clens) + ops_bits(rest, clens));
        lemma_bits_at_split(input, pos, op_bits(op, clens), ops_bits(rest, clens));
        lemma_apply_ops_grows(next, rest);
        assert(has_code(clens, op_symbol(ops[0])));
        lemma_op_read(input, pos, clens, count, acc, op);
        assert forall|k: int| 0 <= k < rest.len() implies has_code(
            clens,
            op_symbol(#[trigger] rest[k]),
        ) by {
            assert(rest[k] == ops[k + 1]);
            assert(has_code(clens, op_symbol(ops[k + 1])));
        }
        lemma_ops_read(input, pos + op_bits(op, clens).len(), clens, count, next, rest);
    }
}

/// A dynamic header decodes to the code tables it carries.
pub proof fn lemma_dynamic_header_reads(
    input: Seq<u8>,
    pos: int,
    lit: Seq<u8>,
    dist: Seq<u8>,
    clens: Seq<u8>,
    ops: Seq<LengthOp>,
)
    requires
        header_ok(lit, dist, clens, ops),
        bits_at(input, pos, dynamic_header_bits(lit, dist, clens, ops)),
    ensures
        dynamic_tables(input, pos) == Ok::<(Seq<u8>, Seq<u8>, int), crate::Error>(
            (lit, dist, pos + dynamic_header_bits(lit, dist, clens, ops).len()),
        ),
{
    let a = lsb_bits(lit.len() - 257, 5);
    let b = lsb_bits(dist.len() - 1, 5);
    let c = lsb_bits(15, 4);
    let d = code_length_code_bits(clens, 19);
    let e = ops_bits(ops, clens);
    assert(dynamic_header_bits(lit, dist, clens, ops) == a + b + c + d + e);
    lemma_bits_at_split(input, pos, a + b + c + d, e);
    lemma_bits_at_split(input, pos, a + b + c, d);
    lemma_bits_at_split(input, pos, a + b, c);
    lemma_bits_at_split(input, pos, a, b);
    crate::bits::lemma_pow2_small_values();
    lemma_lsb_bits_number(lit.len() - 257, 5);
    lemma_lsb_bits_number(dist.len() - 1, 5);
    lemma_lsb_bits_number(15, 4);
    lemma_take_extra(input, pos, lit.len() - 257, 5);
    lemma_take_extra(input, pos + 5, dist.len() - 1, 5);
    lemma_take_extra(input, pos + 10, 15, 4);
    let p3 = pos + 14;
    lemma_code_length_code_reads(input, p3, clens, 19);
    lemma_code_length_order();
    assert(code_length_lengths(input, p3, 19) =~= clens);
    let p4 = p3 + 57;
    let count = (lit.len() + dist.len()) as nat;
    lemma_ops_read(input, p4, clens, count, Seq::empty(), ops);
    assert((lit + dist).take(lit.len() as int) =~= lit);
    assert((lit + dist).skip(lit.len() as int) =~= dist);
    assert((lit + dist)[256] == lit[256]);
}

/// A whole dynamic block: the last-block flag, block type 2, the header,
/// the tokens and the end-of-block code.
pub open spec fn dynamic_block_bits(
    tokens: Seq<Token>,
    lit: Seq<u8>,
    dist: Seq<u8>,
    clens: Seq<u8>,
    ops: Seq<LengthOp>,
    last: bool,
) -> Seq<bool> {
    seq![last, false, true] + dynamic_header_bits(lit, dist, clens, ops) + coded_tokens_bits(
        tokens,
        lit,
        dist,
    ) + symbol_bits(lit, 256)
}

/// A dynamic block is decodable: its tables pass the decoder's checks and
/// every token has codes.
pub open spec fn dynamic_block_ok(
    tokens: Seq<Token>,
    lit: Seq<u8>,
    dist: Seq<u8>,
    clens: Seq<u8>,
    ops: Seq<LengthOp>,
) -> bool {
    &&& header_ok(lit, dist, clens, ops)
    &&& forall|k: int| 0 <= k < tokens.len() ==> token_codable(#[trigger] tokens[k], lit, dist)
}

/// Instructions followed by one more are written as theirs followed by its.
proof fn lemma_ops_bits_push(ops: Seq<LengthOp>, clens: Seq<u8>, op: LengthOp)
    ensures
        ops_bits(ops.push(op), clens) == ops_bits(ops, clens) + op_bits(op, clens),
    decreases ops.len(),
{
    if ops.len() == 0 {
        assert(ops.push(op).drop_first() =~= Seq::<LengthOp>::empty());
        assert(ops.push(op)[0] == op);
        assert(ops_bits(Seq::<LengthOp>::empty(), clens) == Seq::<bool>::empty());
        assert(ops_bits(ops.push(op), clens) =~= op_bits(op, clens));
        assert(ops_bits(ops, clens) + op_bits(op, clens) =~= op_bits(op, clens));
    } else {
        assert(ops.push(op).drop_first() =~= ops.drop_first().push(op));
        lemma_ops_bits_push(ops.drop_first(), clens, op);
        assert(ops_bits(ops.push(op), clens) =~= ops_bits(ops, clens) + op_bits(op, clens));
    }
}

/// Instructions in shape are each in range.
proof fn lemma_ops_in_range(acc: Seq<u8>, ops: Seq<LengthOp>)
    requires
        ops_shape_ok(acc, ops),
    ensures
        forall|x: int| 0 <= x < ops.len() ==> op_ok(#[trigger] ops[x]),
    decreases ops.len(),
{
    if ops.len() > 0 {
        lemma_ops_in_range(apply_op(acc, ops[0]), ops.drop_first());
        assert forall|x: int| 0 <= x < ops.len() implies op_ok(#[trigger] ops[x]) by {
            if x > 0 {
                assert(ops[x] == ops.drop_first()[x - 1]);
            }
        }
    }
}

/// Carrying out one more instruction goes on from the others.
proof fn lemma_apply_ops_push(acc: Seq<u8>, ops: Seq<LengthOp>, op: LengthOp)
    ensures
        apply_ops(acc, ops.push(op)) == apply_op(apply_ops(acc, ops), op),
        ops_shape_ok(acc, ops.push(op)) == (ops_shape_ok(acc, ops) && op_ok(op) && (
        op is RepeatLast ==> apply_ops(acc, ops).len() > 0)),
    decreases ops.len(),
{
    if ops.len() == 0 {
        assert(ops.push(op).drop_first() =~= Seq::<LengthOp>::empty());
        assert(ops.push(op)[0] == op);
        assert(apply_ops(apply_op(acc, op), Seq::<LengthOp>::empty()) == apply_op(acc, op));
        assert(ops_shape_ok(apply_op(acc, op), Seq::<LengthOp>::empty()));
    } else {
        assert(ops.push(op).drop_first() =~= ops.drop_first().push(op));
        assert(ops.push(op)[0] == ops[0]);
        lemma_apply_ops_push(apply_op(acc, ops[0]), ops.drop_first(), op);
    }
}

/// Tokens followed by one more are written as theirs followed by its.
proof fn lemma_coded_tokens_bits_push(tokens: Seq<Token>, t: Token, lit: Seq<u8>, dist: Seq<u8>)
    ensures
        coded_tokens_bits(tokens.push(t), lit, dist) == coded_tokens_bits(tokens, lit, dist)
            + coded_token_bits(t, lit, dist),
    decreases tokens.len(),
{
    if tokens.len() == 0 {
        assert(tokens.push(t).drop_first() =~= Seq::<Token>::empty());
        assert(tokens.push(t)[0] == t);
        assert(coded_tokens_bits(Seq::<Token>::empty(), lit, dist) == Seq::<bool>::empty());
        assert(coded_tokens_bits(tokens.push(t), lit, dist) =~= coded_token_bits(t, lit, dist));
        assert(coded_tokens_bits(tokens, lit, dist) + coded_token_bits(t, lit, dist)
            =~= coded_token_bits(t, lit, dist));
    } else {
        assert(tokens.push(t).drop_first() =~= tokens.drop_first().push(t));
        lemma_coded_tokens_bits_push(tokens.drop_first(), t, lit, dist);
        assert(coded_tokens_bits(tokens.push(t), lit, dist) =~= coded_tokens_bits(
            tokens,
            lit,
            dist,
        ) + coded_token_bits(t, lit, dist));
    }
}

/// A code given by its code lengths, with the code of each symbol.
pub struct CodeTable {
    lengths: Vec<u8>,
    codes: Vec<u32>,
}

impl CodeTable {
    /// The code lengths.
    pub closed spec fn lengths_spec(&self) -> Seq<u8> {
        self.lengths@
    }

    /// The codes agree with the lengths.
    pub closed spec fn wf(&self) -> bool {
        &&& self.lengths@.len() <= 65536
        &&& self.codes@.len() == self.lengths@.len()
        &&& code_space_left(self.lengths@, MAX_CODE_LEN as nat) >= 0
        &&& forall|s: int|
            0 <= s < self.lengths@.len() && 1 <= self.lengths@[s] <= MAX_CODE_LEN
                ==> #[trigger] self.codes@[s] == canonical_code(self.lengths@, s)
    }

    /// The table of a code that is not oversubscribed.
    pub fn new(lengths: Vec<u8>) -> (r: CodeTable)
        requires
            lengths@.len() <= 65536,
            code_space_left(lengths@, MAX_CODE_LEN as nat) >= 0,
        ensures
            r.wf(),
            r.lengths_spec() == lengths@,
    {
        let codes = canonical_codes(&lengths);
        CodeTable { lengths, codes }
    }

    /// The code length of symbol `s`.
    pub fn length(&self, s: usize) -> (r: u8)
        requires
            s < self.lengths_spec().len(),
        ensures
            r == self.lengths_spec()[s as int],
    {
        self.lengths[s]
    }

    /// Writes the code of symbol `s`.
    pub fn write_symbol(&self, w: &mut BitWriter, s: usize)
        requires
            self.wf(),
            old(w).wf(),
            has_code(self.lengths_spec(), s as int),
        ensures
            final(w).wf(),
            final(w).written() == old(w).written() + symbol_bits(self.lengths_spec(), s as int),
    {
        w.write_msb(self.codes[s], self.lengths[s]);
    }
}

/// Writes one token in the given codes.
fn write_coded_token(w: &mut BitWriter, t: Token, lit: &CodeTable, dist: &CodeTable)
    requires
        old(w).wf(),
        lit.wf(),
        dist.wf(),
        token_fits(t),
        token_codable(t, lit.lengths_spec(), dist.lengths_spec()),
    ensures
        final(w).wf(),
        final(w).written() == old(w).written() + coded_token_bits(
            t,
            lit.lengths_spec(),
            dist.lengths_spec(),
        ),
{
    match t {
        Token::Literal(b) => {
            lit.write_symbol(w, b as usize);
        },
        Token::Match { len_slot, len_extra, dist_slot, dist_extra } => {
            let ghost w0 = w.written();
            lit.write_symbol(w, 257 + len_slot as usize);
            w.write_lsb(len_extra as u32, LENGTH_EXTRA[len_slot as usize]);
            dist.write_symbol(w, dist_slot as usize);
            w.write_lsb(dist_extra as u32, DIST_EXTRA[dist_slot as usize]);
            assert(w.written() =~= w0 + coded_token_bits(
                t,
                lit.lengths_spec(),
                dist.lengths_spec(),
            ));
        },
    }
}

/// The bytes of one final dynamic block holding `tokens`.
pub fn write_dynamic_block(
    tokens: &Vec<Token>,
    lit: &CodeTable,
    dist: &CodeTable,
    clens: &CodeTable,
    ops: &Vec<LengthOp>,
) -> (r: Vec<u8>)
    requires
        lit.wf(),
        dist.wf(),
        clens.wf(),
        dynamic_block_ok(
            tokens@,
            lit.lengths_spec(),
            dist.lengths_spec(),
            clens.lengths_spec(),
            ops@,
        ),
        forall|k: int| 0 <= k < tokens@.len() ==> token_fits(#[trigger] tokens@[k]),
    ensures
        holds_bits(
            r@,
            dynamic_block_bits(
                tokens@,
                lit.lengths_spec(),
                dist.lengths_spec(),
                clens.lengths_spec(),
                ops@,
                true,
            ),
        ),
        r@ == packed(
            dynamic_block_bits(
                tokens@,
                lit.lengths_spec(),
                dist.lengths_spec(),
                clens.lengths_spec(),
                ops@,
                true,
            ),
        ),
{
    let ghost l = lit.lengths_spec();
    let ghost d = dist.lengths_spec();
    let ghost c = clens.lengths_spec();
    let mut w = BitWriter::new();
    w.write_bit(true);
    w.write_bit(false);
    w.write_bit(true);
    let nlen = lit.lengths.len();
    let ndist = dist.lengths.len();
    w.write_lsb((nlen - 257) as u32, 5);
    w.write_lsb((ndist - 1) as u32, 5);
    w.write_lsb(15, 4);
    let ghost start = seq![true, false, true] + lsb_bits(l.len() - 257, 5) + lsb_bits(
        d.len() - 1,
        5,
    ) + lsb_bits(15, 4);
    assert(w.written() =~= start);
    let mut k: usize = 0;
    while k < 19
        invariant
            k <= 19,
            w.wf(),
            clens.wf(),
            c == clens.lengths_spec(),
            c.len() == 19,
            w.written() == start + code_length_code_bits(c, k as nat),
        decreases 19 - k,
    {
        proof {
            lemma_code_length_order();
        }
        let slot = CODE_LENGTH_ORDER[k] as usize;
        w.write_lsb(clens.length(slot) as u32, 3);
        assert(w.written() =~= start + code_length_code_bits(c, (k + 1) as nat));
        k = k + 1;
    }
    let ghost middle = start + code_length_code_bits(c, 19);
    proof {
        lemma_ops_in_range(Seq::empty(), ops@);
    }
    let mut i: usize = 0;
    while i < ops.len()
        invariant
            i <= ops@.len(),
            w.wf(),
            clens.wf(),
            c == clens.lengths_spec(),
            ops_coded(ops@, c),
            forall|x: int| 0 <= x < ops@.len() ==> op_ok(#[trigger] ops@[x]),
            w.written() == middle + ops_bits(ops@.take(i as int), c),
        decreases ops@.len() - i,
    {
        let op = ops[i];
        assert(has_code(c, op_symbol(ops@[i as int])));
        assert(op_ok(ops@[i as int]));
        match op {
            LengthOp::Single(v) => {
                clens.write_symbol(&mut w, v as usize);
                w.write_lsb(0, 0);
            },
            LengthOp::RepeatLast(n) => {
                clens.write_symbol(&mut w, 16);
                w.write_lsb((n - 3) as u32, 2);
            },
            LengthOp::Zeros(n) => {
                if n <= 10 {
                    clens.write_symbol(&mut w, 17);
                    w.write_lsb((n - 3) as u32, 3);
                } else {
                    clens.write_symbol(&mut w, 18);
                    w.write_lsb((n - 11) as u32, 7);
                }
            },
        }
        proof {
            lemma_ops_bits_push(ops@.take(i as int), c, op);
            assert(ops@.take(i as int).push(op) =~= ops@.take(i + 1));
        }
        i = i + 1;
    }
    assert(ops@.take(i as int) =~= ops@);
    let ghost header_end = w.written();
    assert(header_end =~= seq![true, false, true] + dynamic_header_bits(l, d, c, ops@));
    let mut j: usize = 0;
    while j < tokens.len()
        invariant
            j <= tokens@.len(),
            w.wf(),
            lit.wf(),
            dist.wf(),
            l == lit.lengths_spec(),
            d == dist.lengths_spec(),
            dynamic_block_ok(tokens@, l, d, c, ops@),
            forall|k: int| 0 <= k < tokens@.len() ==> token_fits(#[trigger] tokens@[k]),
            w.written() == header_end + coded_tokens_bits(tokens@.take(j as int), l, d),
        decreases tokens@.len() - j,
    {
        let t = tokens[j];
        assert(token_codable(tokens@[j as int], l, d));
        write_coded_token(&mut w, t, lit, dist);
        proof {
            lemma_coded_tokens_bits_push(tokens@.take(j as int), t, l, d);
            assert(tokens@.take(j as int).push(t) =~= tokens@.take(j + 1));
        }
        j = j + 1;
    }
    assert(tokens@.take(j as int) =~= tokens@);
    lit.write_symbol(&mut w, 256);
    assert(w.written() =~= dynamic_block_bits(tokens@, l, d, c, ops@, true));
    w.finish()
}

/// Adds one to a count, stopping at the largest `u32`.
fn bump(counts: &mut Vec<u32>, i: usize)
    requires
        i < old(counts)@.len(),
    ensures
        final(counts)@ == old(counts)@.update(
            i as int,
            if old(counts)@[i as int] < u32::MAX {
                (old(counts)@[i as int] + 1) as u32
            } else {
                old(counts)@[i as int]
            },
        ),
{
    let c = counts[i];
    if c < u32::MAX {
        counts.set(i, c + 1);
    }
}

/// `n` zero counts.
fn zeros(n: usize) -> (r: Vec<u32>)
    ensures
        r@ == Seq::new(n as nat, |i: int| 0u32),
{
    let mut v: Vec<u32> = Vec::new();
    let mut i: usize = 0;
    while i < n
        invariant
            i <= n,
            v@ == Seq::new(i as nat, |j: int| 0u32),
        decreases n - i,
    {
        v.push(0);
        i = i + 1;
        assert(v@ =~= Seq::new(i as nat, |j: int| 0u32));
    }
    v
}

/// A count one higher, stopping at the largest `u32`.
pub open spec fn bumped(c: u32) -> u32 {
    if c < u32::MAX {
        (c + 1) as u32
    } else {
        c
    }
}

/// How often the first `k` tokens use each literal/length symbol and each
/// distance symbol (counts stop at the largest `u32`).
pub open spec fn token_counts(tokens: Seq<Token>, k: nat) -> (Seq<u32>, Seq<u32>)
    decreases k,
{
    if k == 0 {
        (Seq::new(286, |i: int| 0u32), Seq::new(30, |i: int| 0u32))
    } else {
        let (lit, dist) = token_counts(tokens, (k - 1) as nat);
        match tokens[k - 1] {
            Token::Literal(b) => (lit.update(b as int, bumped(lit[b as int])), dist),
            Token::Match { len_slot, dist_slot, .. } => (
                lit.update(257 + len_slot, bumped(lit[257 + len_slot])),
                dist.update(dist_slot as int, bumped(dist[dist_slot as int])),
            ),
        }
    }
}

/// The literal/length symbol frequencies of a block holding `tokens`: how
/// often each is used, with the end-of-block symbol counted once.
pub open spec fn lit_freqs(tokens: Seq<Token>) -> Seq<u32> {
    token_counts(tokens, tokens.len()).0.update(256, 1)
}

/// The distance symbol frequencies of a block holding `tokens`.
pub open spec fn dist_freqs(tokens: Seq<Token>) -> Seq<u32> {
    token_counts(tokens, tokens.len()).1
}

/// How often the first `k` instructions use each code length symbol.
pub open spec fn op_counts(ops: Seq<LengthOp>, k: nat) -> Seq<u32>
    decreases k,
{
    if k == 0 {
        Seq::new(19, |i: int| 0u32)
    } else {
        let c = op_counts(ops, (k - 1) as nat);
        let s = op_symbol(ops[k - 1]);
        c.update(s, bumped(c[s]))
    }
}

/// The code length symbol frequencies of the instructions `ops`.
pub open spec fn op_freqs(ops: Seq<LengthOp>) -> Seq<u32> {
    op_counts(ops, ops.len())
}

/// The literal/length code lengths planned for a block holding `tokens`:
/// Huffman's lengths for their frequencies, at most 15 bits, trimmed of
/// trailing zeros past the 257th.
pub open spec fn plan_lit(tokens: Seq<Token>) -> Seq<u8> {
    trim(huffman_spec(lit_freqs(tokens), 15), 257)
}

/// The distance code lengths planned for a block holding `tokens`.
pub open spec fn plan_dist(tokens: Seq<Token>) -> Seq<u8> {
    trim(huffman_spec(dist_freqs(tokens), 15), 1)
}

/// The instructions that write the planned code lengths.
pub open spec fn plan_ops(tokens: Seq<Token>) -> Seq<LengthOp> {
    ops_from(plan_lit(tokens) + plan_dist(tokens), 0)
}

/// The planned code length code: Huffman's lengths, at most 7 bits, for
/// the frequencies of the instruction symbols.
pub open spec fn plan_clens(tokens: Seq<Token>) -> Seq<u8> {
    huffman_spec(op_freqs(plan_ops(tokens)), 7)
}

/// Trimming the trailing zero lengths of a code for `freqs` gives one that
/// `lengths_fit` describes.
proof fn lemma_trimmed_fit(freqs: Seq<u32>, h: Seq<u8>, t: Seq<u8>, max_len: u8, min: int)
    requires
        h.len() == freqs.len(),
        0 <= min <= t.len() <= h.len(),
        t == h.take(t.len() as int),
        forall|j: int| t.len() <= j < h.len() ==> h[j] == 0,
        t.len() == min || t[t.len() - 1] != 0,
        code_space_left(t, MAX_CODE_LEN as nat) == code_space_left(h, MAX_CODE_LEN as nat),
        forall|i: int| 0 <= i < h.len() ==> h[i] <= max_len,
        positives(freqs, freqs.len() as int) == 0 ==> forall|i: int| 0 <= i < h.len() ==> h[i] == 0,
        positives(freqs, freqs.len() as int) == 1 ==> code_space_left(h, MAX_CODE_LEN as nat) == 0
            && forall|i: int| 0 <= i < h.len() ==> #[trigger] h[i] <= 1,
        positives(freqs, freqs.len() as int) >= 2 ==> exact_code(freqs, h, max_len),
        positives(freqs, freqs.len() as int) >= 1 ==> code_space_left(h, MAX_CODE_LEN as nat) == 0
            && forall|i: int| 0 <= i < h.len() && #[trigger] freqs[i] > 0 ==> 1 <= h[i] <= max_len,
    ensures
        lengths_fit(freqs, t, max_len, min),
{
    lemma_positives_bound(freqs, freqs.len() as int);
    assert forall|i: int| 0 <= i < freqs.len() && #[trigger] freqs[i] > 0 implies i < t.len() && 1
        <= t[i] <= max_len by {
        lemma_has_positive(freqs, freqs.len() as int, i);
        assert(h[i] >= 1);
    }
    assert forall|i: int| 0 <= i < t.len() implies #[trigger] t[i] <= max_len by {
        assert(t[i] == h[i]);
    }
    if positives(freqs, freqs.len() as int) >= 2 {
        assert forall|i: int| 0 <= i < t.len() && #[trigger] freqs[i] == 0 implies t[i] == 0 by {
            assert(t[i] == h[i]);
        }
    }
    if positives(freqs, freqs.len() as int) == 1 {
        assert forall|i: int| 0 <= i < t.len() implies #[trigger] t[i] <= 1 by {
            assert(t[i] == h[i]);
        }
    }
    if positives(freqs, freqs.len() as int) == 0 {
        assert forall|i: int| 0 <= i < t.len() implies #[trigger] t[i] == 0 by {
            assert(t[i] == h[i]);
        }
    }
}

/// How many of the first `n` lengths are left once trailing zeros are
/// dropped, keeping at least `min`.
pub open spec fn trim_len(v: Seq<u8>, min: int, n: int) -> int
    decreases n,
{
    if n > min && n > 0 && v[n - 1] == 0 {
        trim_len(v, min, n - 1)
    } else {
        n
    }
}

/// `v` without its trailing zeros, keeping at least `min` entries.
pub open spec fn trim(v: Seq<u8>, min: int) -> Seq<u8> {
    v.take(trim_len(v, min, v.len() as int))
}

/// The first `n` entries of `v`, with `n` at least `min` and past its last
/// nonzero entry.
fn trimmed(v: &Vec<u8>, min: usize) -> (r: Vec<u8>)
    requires
        min <= v@.len(),
    ensures
        min <= r@.len() <= v@.len(),
        r@ == v@.take(r@.len() as int),
        forall|j: int| r@.len() <= j < v@.len() ==> v@[j] == 0,
        r@.len() == min || v@[r@.len() - 1] != 0,
        forall|len: nat| code_space_left(r@, len) == code_space_left(v@, len),
        r@ == trim(v@, min as int),
{
    let mut n = v.len();
    while n > min && v[n - 1] == 0
        invariant
            min <= n <= v@.len(),
            forall|j: int| n <= j < v@.len() ==> v@[j] == 0,
            trim_len(v@, min as int, v@.len() as int) == trim_len(v@, min as int, n as int),
        decreases n,
    {
        n = n - 1;
    }
    let mut r: Vec<u8> = Vec::new();
    let mut i: usize = 0;
    while i < n
        invariant
            i <= n <= v@.len(),
            r@ == v@.take(i as int),
        decreases n - i,
    {
        r.push(v[i]);
        assert(v@.take(i + 1) =~= v@.take(i as int).push(v@[i as int]));
        i = i + 1;
    }
    proof {
        assert forall|len: nat| code_space_left(r@, len) == code_space_left(v@, len) by {
            lemma_trailing_zeros_space(v@, n as nat, len);
        }
    }
    r
}

/// Symbols below `k` are counted alike in two lists that agree below `k`.
proof fn lemma_symbols_agree(s: Seq<u8>, t: Seq<u8>, len: int, k: nat)
    requires
        k <= s.len(),
        k <= t.len(),
        forall|j: int| 0 <= j < k ==> s[j] == t[j],
    ensures
        symbols_of_length(s, len, k) == symbols_of_length(t, len, k),
    decreases k,
{
    if k > 0 {
        lemma_symbols_agree(s, t, len, (k - 1) as nat);
    }
}

/// Symbols from `n` on whose lengths are 0 add nothing to a positive length.
proof fn lemma_symbols_zero_tail(v: Seq<u8>, len: int, n: nat, k: nat)
    requires
        len >= 1,
        n <= k <= v.len(),
        forall|j: int| n <= j < v.len() ==> v[j] == 0,
    ensures
        symbols_of_length(v, len, k) == symbols_of_length(v, len, n),
    decreases k,
{
    if k > n {
        lemma_symbols_zero_tail(v, len, n, (k - 1) as nat);
    }
}

/// Dropping trailing zero lengths leaves the code space as it was.
proof fn lemma_trailing_zeros_space(v: Seq<u8>, n: nat, len: nat)
    requires
        n <= v.len(),
        forall|j: int| n <= j < v.len() ==> v[j] == 0,
    ensures
        code_space_left(v.take(n as int), len) == code_space_left(v, len),
    decreases len,
{
    if len > 0 {
        lemma_trailing_zeros_space(v, n, (len - 1) as nat);
        lemma_symbols_agree(v.take(n as int), v, len as int, n);
        lemma_symbols_zero_tail(v, len as int, n, v.len());
    }
}

/// A list of zero lengths leaves all `2^len` codes of each length free.
proof fn lemma_no_codes_space(v: Seq<u8>, len: nat)
    requires
        forall|j: int| 0 <= j < v.len() ==> v[j] == 0,
        len <= 15,
    ensures
        code_space_left(v, len) == pow2_small(len),
    decreases len,
{
    if len > 0 {
        lemma_no_codes_space(v, (len - 1) as nat);
        lemma_symbols_zero_tail(v, len as int, 0, v.len());
        lemma_pow2_small_step((len - 1) as nat);
    }
}

/// How many of the lengths from `i` on equal `v`, counting at most `max`.
pub open spec fn run_spec(all: Seq<u8>, i: int, v: u8, max: nat) -> nat
    decreases max,
{
    if max == 0 || i < 0 || i >= all.len() || all[i] != v {
        0
    } else {
        1 + run_spec(all, i + 1, v, (max - 1) as nat)
    }
}

/// A run of `r` lengths equal to `v` starts the counted run.
proof fn lemma_run_spec_split(all: Seq<u8>, i: int, v: u8, max: nat, r: nat)
    requires
        0 <= i,
        r <= max,
        i + r <= all.len(),
        forall|k: int| i <= k < i + r ==> all[k] == v,
    ensures
        run_spec(all, i, v, max) == r + run_spec(all, i + r, v, (max - r) as nat),
    decreases r,
{
    if r > 0 {
        lemma_run_spec_split(all, i + 1, v, (max - 1) as nat, (r - 1) as nat);
    }
}

/// The instructions `length_ops` gives for the lengths from `i` on: a run
/// of three or more zeros (up to 138) as one, a run of three or more
/// repeats of the length before (up to 6) as one, and any other length by
/// itself.
pub open spec fn ops_from(all: Seq<u8>, i: int) -> Seq<LengthOp>
    decreases all.len() - i,
{
    if i < 0 || i >= all.len() {
        Seq::empty()
    } else {
        let v = all[i];
        let z = run_spec(all, i, 0, 138);
        let r = run_spec(all, i, v, 6);
        if v == 0 && z >= 3 {
            proof {
                lemma_run_spec_bound(all, i, 0, 138);
            }
            seq![LengthOp::Zeros(z as u8)] + ops_from(all, i + z)
        } else if v != 0 && i > 0 && all[i - 1] == v && r >= 3 {
            proof {
                lemma_run_spec_bound(all, i, v, 6);
            }
            seq![LengthOp::RepeatLast(r as u8)] + ops_from(all, i + r)
        } else {
            seq![LengthOp::Single(v)] + ops_from(all, i + 1)
        }
    }
}

/// A counted run stays within the lengths and its cap.
pub proof fn lemma_run_spec_bound(all: Seq<u8>, i: int, v: u8, max: nat)
    ensures
        run_spec(all, i, v, max) <= max,
        0 <= i ==> i + run_spec(all, i, v, max) <= if all.len() > i {
            all.len() as int
        } else {
            i
        },
    decreases max,
{
    if max > 0 {
        lemma_run_spec_bound(all, i + 1, v, (max - 1) as nat);
    }
}

/// How many of the lengths from `i` on equal `v`, up to `max`.
fn run_length(all: &Vec<u8>, i: usize, v: u8, max: usize) -> (r: usize)
    requires
        i <= all@.len(),
    ensures
        r <= max,
        i + r <= all@.len(),
        forall|k: int| i <= k < i + r ==> all@[k] == v,
        r == max || i + r == all@.len() || all@[i + r] != v,
        r == run_spec(all@, i as int, v, max as nat),
{
    let n = all.len();
    let mut r: usize = 0;
    while r < max && i + r < n && all[i + r] == v
        invariant
            n == all@.len(),
            i <= all@.len(),
            r <= max,
            i + r <= all@.len(),
            forall|k: int| i <= k < i + r ==> all@[k] == v,
        decreases max - r,
    {
        r = r + 1;
    }
    proof {
        lemma_run_spec_split(all@, i as int, v, max as nat, r as nat);
    }
    r
}

/// The instructions for a list of code lengths: runs of three or more
/// zeros, and runs of three or more repeats of the length before them, are
/// written as repeats.
fn length_ops(all: &Vec<u8>) -> (r: Vec<LengthOp>)
    requires
        forall|x: int| 0 <= x < all@.len() ==> all@[x] <= 15,
    ensures
        ops_shape_ok(Seq::empty(), r@),
        apply_ops(Seq::empty(), r@) == all@,
        forall|k: int| 0 <= k < r@.len() ==> op_ok(#[trigger] r@[k]),
        r@ == ops_from(all@, 0),
{
    let n = all.len();
    let mut ops: Vec<LengthOp> = Vec::new();
    let mut i: usize = 0;
    assert(all@.take(0) =~= Seq::<u8>::empty());
    while i < n
        invariant
            i <= n == all@.len(),
            forall|x: int| 0 <= x < all@.len() ==> all@[x] <= 15,
            ops_shape_ok(Seq::empty(), ops@),
            apply_ops(Seq::empty(), ops@) == all@.take(i as int),
            forall|k: int| 0 <= k < ops@.len() ==> op_ok(#[trigger] ops@[k]),
            ops@ + ops_from(all@, i as int) == ops_from(all@, 0),
        decreases n - i,
    {
        let v = all[i];
        let ghost acc = all@.take(i as int);
        let mut op = LengthOp::Single(v);
        let mut step: usize = 1;
        if v == 0 {
            let z = run_length(all, i, 0, 138);
            if z >= 3 {
                op = LengthOp::Zeros(z as u8);
                step = z;
                assert(acc + Seq::new(z as nat, |k: int| 0u8) =~= all@.take(i + z));
            }
        } else if i > 0 && all[i - 1] == v {
            let r = run_length(all, i, v, 6);
            if r >= 3 {
                op = LengthOp::RepeatLast(r as u8);
                step = r;
                assert(acc.last() == v);
                assert(acc + Seq::new(r as nat, |k: int| acc.last()) =~= all@.take(i + r));
            }
        }
        if step == 1 {
            assert(acc.push(v) =~= all@.take(i + 1));
        }
        proof {
            lemma_apply_ops_push(Seq::empty(), ops@, op);
            assert(ops_from(all@, i as int) == seq![op] + ops_from(all@, i + step));
            assert(ops@.push(op) + ops_from(all@, i + step) =~= ops@ + (seq![op] + ops_from(
                all@,
                i + step,
            )));
        }
        ops.push(op);
        i = i + step;
    }
    assert(all@.take(n as int) =~= all@);
    assert(ops@ + ops_from(all@, i as int) =~= ops@);
    ops
}

/// Code tables for a dynamic block holding `tokens`, from their symbol
/// frequencies: the end-of-block symbol counts once, and the code lengths
/// are written with the code length code built from how often each
/// instruction symbol is used. There is always such a plan.
pub fn plan_dynamic(tokens: &Vec<Token>) -> (r: Option<
    (CodeTable, CodeTable, CodeTable, Vec<LengthOp>),
>)
    requires
        forall|k: int| 0 <= k < tokens@.len() ==> token_fits(#[trigger] tokens@[k]),
    ensures
        r is Some,
        r matches Some((l, d, c, ops)) ==> l.wf() && d.wf() && c.wf() && dynamic_block_ok(
            tokens@,
            l.lengths_spec(),
            d.lengths_spec(),
            c.lengths_spec(),
            ops@,
        ),
        r matches Some((l, d, c, ops)) ==> l.lengths_spec() == plan_lit(tokens@)
            && d.lengths_spec() == plan_dist(tokens@) && ops@ == plan_ops(tokens@)
            && c.lengths_spec() == plan_clens(tokens@),
        r matches Some((l, d, c, ops)) ==> lengths_fit(lit_freqs(tokens@), l.lengths_spec(), 15, 257)
            && lengths_fit(dist_freqs(tokens@), d.lengths_spec(), 15, 1) && lengths_fit(
            op_freqs(ops@),
            c.lengths_spec(),
            7,
            19,
        ),
{
    proof {
        lemma_pow2_small_values();
        lemma_pow2_small_16();
        lemma_pow2_small_step(15);
    }
    let mut lit_freq = zeros(286);
    let mut dist_freq = zeros(30);
    let mut k: usize = 0;
    while k < tokens.len()
        invariant
            k <= tokens@.len(),
            lit_freq@.len() == 286,
            dist_freq@.len() == 30,
            forall|j: int| 0 <= j < tokens@.len() ==> token_fits(#[trigger] tokens@[j]),
            forall|j: int| 0 <= j < k ==> token_counted(#[trigger] tokens@[j], lit_freq@, dist_freq@),
            (lit_freq@, dist_freq@) == token_counts(tokens@, k as nat),
        decreases tokens@.len() - k,
    {
        let t = tokens[k];
        assert(token_fits(tokens@[k as int]));
        let ghost lf = lit_freq@;
        let ghost df = dist_freq@;
        match t {
            Token::Literal(b) => {
                bump(&mut lit_freq, b as usize);
            },
            Token::Match { len_slot, dist_slot, .. } => {
                bump(&mut lit_freq, 257 + len_slot as usize);
                bump(&mut dist_freq, dist_slot as usize);
            },
        }
        assert forall|j: int| 0 <= j <= k implies #[trigger] token_counted(
            tokens@[j],
            lit_freq@,
            dist_freq@,
        ) by {
            if j < k {
                assert(token_counted(tokens@[j], lf, df));
            }
        }
        k = k + 1;
    }
    let ghost lf = lit_freq@;
    lit_freq.set(256, 1);
    assert forall|j: int| 0 <= j < tokens@.len() implies #[trigger] token_counted(
        tokens@[j],
        lit_freq@,
        dist_freq@,
    ) by {
        assert(token_counted(tokens@[j], lf, dist_freq@));
        assert(token_fits(tokens@[j]));
    }
    proof {
        lemma_has_positive(lit_freq@, 286, 256);
    }
    assert(lit_freq@ == lit_freqs(tokens@));
    assert(dist_freq@ == dist_freqs(tokens@));
    let lit_h = huffman_lengths(&lit_freq, 15);
    let dist_h = huffman_lengths(&dist_freq, 15);
    let lit = trimmed(&lit_h, 257);
    let dist = trimmed(&dist_h, 1);
    proof {
        lemma_trimmed_fit(lit_freq@, lit_h@, lit@, 15, 257);
        lemma_trimmed_fit(dist_freq@, dist_h@, dist@, 15, 1);
    }
    let nlen = lit.len();
    let ndist = dist.len();
    proof {
        assert(code_space_left(lit@, MAX_CODE_LEN as nat) == 0);
        assert(lit@[256] == lit_h@[256]);
        assert(lit_freq@[256] > 0);
        if positives(dist_freq@, 30) == 0 {
            lemma_no_codes_space(dist_h@, MAX_CODE_LEN as nat);
            assert(forall|x: int| 0 <= x < dist@.len() ==> dist@[x] == dist_h@[x]);
        }
    }
    let mut all: Vec<u8> = Vec::new();
    let mut i: usize = 0;
    while i < nlen + ndist
        invariant
            nlen == lit@.len() <= 286,
            ndist == dist@.len() <= 30,
            i <= nlen + ndist,
            all@ == (lit@ + dist@).take(i as int),
            forall|x: int| 0 <= x < lit@.len() ==> lit@[x] <= 15,
            forall|x: int| 0 <= x < dist@.len() ==> dist@[x] <= 15,
        decreases nlen + ndist - i,
    {
        let v = if i < nlen {
            lit[i]
        } else {
            dist[i - nlen]
        };
        assert(v == (lit@ + dist@)[i as int]);
        all.push(v);
        assert((lit@ + dist@).take(i + 1) =~= (lit@ + dist@).take(i as int).push(v));
        i = i + 1;
    }
    assert((lit@ + dist@).take(i as int) =~= lit@ + dist@);
    let ops = length_ops(&all);
    assert(ops@ == plan_ops(tokens@));
    proof {
        if ops@.len() == 0 {
            assert(apply_ops(Seq::empty(), ops@) == Seq::<u8>::empty());
        }
    }
    let mut clen_freq = zeros(19);
    let mut j: usize = 0;
    while j < ops.len()
        invariant
            j <= ops@.len(),
            clen_freq@.len() == 19,
            forall|y: int| 0 <= y < ops@.len() ==> op_ok(#[trigger] ops@[y]),
            forall|y: int| 0 <= y < j ==> clen_freq@[op_symbol(#[trigger] ops@[y])] > 0,
            clen_freq@ == op_counts(ops@, j as nat),
        decreases ops@.len() - j,
    {
        let sym: usize = match ops[j] {
            LengthOp::Single(v) => v as usize,
            LengthOp::RepeatLast(_) => 16,
            LengthOp::Zeros(n) => if n <= 10 {
                17
            } else {
                18
            },
        };
        assert(op_ok(ops@[j as int]));
        assert(sym == op_symbol(ops@[j as int]) && sym < 19);
        let ghost cf = clen_freq@;
        bump(&mut clen_freq, sym);
        assert forall|y: int| 0 <= y <= j implies clen_freq@[op_symbol(#[trigger] ops@[y])] > 0 by {
            if y < j {
                assert(op_ok(ops@[y]));
                assert(cf[op_symbol(ops@[y])] > 0);
            }
        }
        j = j + 1;
    }
    proof {
        assert(op_ok(ops@[0]));
        lemma_has_positive(clen_freq@, 19, op_symbol(ops@[0]));
    }
    assert(clen_freq@ == op_freqs(ops@));
    let clens = huffman_lengths(&clen_freq, 7);
    proof {
        assert(clens@.take(19) =~= clens@);
        lemma_trimmed_fit(clen_freq@, clens@, clens@, 7, 19);
    }
    let clen_code = Huffman::build(&clens);
    if clen_code.space_left() != 0 {
        return None;
    }
    let mut x: usize = 0;
    while x < ops.len()
        invariant
            x <= ops@.len(),
            clens@.len() == 19,
            clen_freq@.len() == 19,
            forall|y: int| 0 <= y < ops@.len() ==> op_ok(#[trigger] ops@[y]),
            forall|y: int| 0 <= y < ops@.len() ==> clen_freq@[op_symbol(#[trigger] ops@[y])] > 0,
            forall|i: int| 0 <= i < 19 && #[trigger] clen_freq@[i] > 0 ==> 1 <= clens@[i] <= 7,
            forall|y: int| 0 <= y < x ==> has_code(clens@, op_symbol(#[trigger] ops@[y])),
        decreases ops@.len() - x,
    {
        let sym: usize = match ops[x] {
            LengthOp::Single(v) => v as usize,
            LengthOp::RepeatLast(_) => 16,
            LengthOp::Zeros(n) => if n <= 10 {
                17
            } else {
                18
            },
        };
        assert(op_ok(ops@[x as int]));
        assert(clen_freq@[op_symbol(ops@[x as int])] > 0);
        if sym >= 19 || clens[sym] == 0 || clens[sym] > 15 {
            return None;
        }
        x = x + 1;
    }
    if lit[256] == 0 || lit[256] > 15 {
        return None;
    }
    let lit_code = Huffman::build(&lit);
    let dist_code = Huffman::build(&dist);
    proof {
        assert(code_space_left(lit@, MAX_CODE_LEN as nat) == code_space_left(
            lit_h@,
            MAX_CODE_LEN as nat,
        ));
        assert(usable_code(lit@));
        assert(code_space_left(dist@, MAX_CODE_LEN as nat) == code_space_left(
            dist_h@,
            MAX_CODE_LEN as nat,
        ));
        if positives(dist_freq@, 30) == 0 {
            assert(forall|x: int| 0 <= x < dist@.len() ==> dist@[x] == dist_h@[x]);
            assert(forall|x: int| 0 <= x < dist@.len() ==> dist@[x] <= 1);
            assert(code_space_left(dist_h@, MAX_CODE_LEN as nat) == pow2_small(15));
            assert(code_space_left(dist@, MAX_CODE_LEN as nat) > 0);
        } else {
            lemma_positives_bound(dist_freq@, 30);
            assert(code_space_left(dist_h@, MAX_CODE_LEN as nat) == 0);
        }
        assert(usable_code(dist@));
    }
    if !is_usable(&lit_code, &lit) || !is_usable(&dist_code, &dist) {
        return None;
    }
    let mut m: usize = 0;
    while m < tokens.len()
        invariant
            m <= tokens@.len(),
            nlen == lit@.len(),
            ndist == dist@.len(),
            lit@ == lit_h@.take(nlen as int),
            dist@ == dist_h@.take(ndist as int),
            nlen <= 286,
            ndist <= 30,
            lit_h@.len() == 286,
            dist_h@.len() == 30,
            forall|j: int| nlen <= j < 286 ==> lit_h@[j] == 0,
            forall|j: int| ndist <= j < 30 ==> dist_h@[j] == 0,
            forall|i: int| 0 <= i < 286 && #[trigger] lit_freq@[i] > 0 ==> 1 <= lit_h@[i] <= 15,
            positives(dist_freq@, 30) >= 1 ==> forall|i: int|
                0 <= i < 30 && #[trigger] dist_freq@[i] > 0 ==> 1 <= dist_h@[i] <= 15,
            forall|j: int| 0 <= j < tokens@.len() ==> #[trigger] token_counted(
                tokens@[j],
                lit_freq@,
                dist_freq@,
            ),
            forall|j: int| 0 <= j < tokens@.len() ==> token_fits(#[trigger] tokens@[j]),
            forall|x: int| 0 <= x < m ==> token_codable(#[trigger] tokens@[x], lit@, dist@),
        decreases tokens@.len() - m,
    {
        assert(token_counted(tokens@[m as int], lit_freq@, dist_freq@));
        assert(token_fits(tokens@[m as int]));
        match tokens[m] {
            Token::Literal(b) => {
                assert(lit_freq@[b as int] > 0);
                assert(lit_h@[b as int] >= 1);
                assert(b < nlen);
                assert(lit_h@.take(nlen as int)[b as int] == lit_h@[b as int]);
                assert(lit@[b as int] == lit_h@[b as int]);
                if b as usize >= nlen || lit[b as usize] == 0 || lit[b as usize] > 15 {
                    return None;
                }
            },
            Token::Match { len_slot, dist_slot, .. } => {
                let s = 257 + len_slot as usize;
                assert(lit_freq@[s as int] > 0);
                assert(lit_h@[s as int] >= 1);
                assert(s < nlen);
                assert(lit_h@.take(nlen as int)[s as int] == lit_h@[s as int]);
                assert(lit@[s as int] == lit_h@[s as int]);
                if s >= nlen || lit[s] == 0 || lit[s] > 15 {
                    return None;
                }
                let d = dist_slot as usize;
                proof {
                    lemma_has_positive(dist_freq@, 30, d as int);
                }
                assert(dist_freq@[d as int] > 0);
                assert(dist_h@[d as int] >= 1);
                assert(d < ndist);
                assert(dist_h@.take(ndist as int)[d as int] == dist_h@[d as int]);
                assert(dist@[d as int] == dist_h@[d as int]);
                if d >= ndist || dist[d] == 0 || dist[d] > 15 {
                    return None;
                }
            },
        }
        m = m + 1;
    }
    proof {
        assert forall|x: int| 0 <= x < 19 implies #[trigger] clens@[x] < 8 by {}
    }
    let l = CodeTable::new(lit);
    let d = CodeTable::new(dist);
    let c = CodeTable::new(clens);
    Some((l, d, c, ops))
}

/// Every symbol that `t` needs has a positive frequency.
spec fn token_counted(t: Token, lit_freq: Seq<u32>, dist_freq: Seq<u32>) -> bool {
    match t {
        Token::Literal(b) => lit_freq[b as int] > 0,
        Token::Match { len_slot, dist_slot, .. } => lit_freq[257 + len_slot] > 0
            && dist_freq[dist_slot as int] > 0,
    }
}

} // verus!
