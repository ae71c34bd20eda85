//! The codes a canonical Huffman code hands out, and the theorem that
//! decoding the code of a symbol gives back that symbol.
use vstd::prelude::*;
use vstd::arithmetic::div_mod::{lemma_div_denominator, lemma_fundamental_div_mod};
use crate::bits::{bit_at, lemma_pow2_small_monotonic, lemma_pow2_small_step, pow2_small};
use crate::bitwriter::{bit_value, bits_at, msb_bits};
use crate::huffman::{
    code_count, code_space_left, decode_from, decode_symbol, lemma_decode_step_hit,
    lemma_decode_step_on, symbols_of_length, MAX_CODE_LEN,
};

verus! {

/// The first code of length `len`: twice the code after the last one of
/// length `len - 1`.
pub open spec fn first_code(lengths: Seq<u8>, len: nat) -> int
    decreases len,
{
    if len <= 1 {
        0
    } else {
        2 * (first_code(lengths, (len - 1) as nat) + code_count(lengths, len - 1))
    }
}

/// How many symbols below `s` share its code length.
pub open spec fn code_rank(lengths: Seq<u8>, s: int) -> int {
    symbols_of_length(lengths, lengths[s] as int, s as nat).len() as int
}

/// The code of symbol `s` (with `lengths[s]` bits).
pub open spec fn canonical_code(lengths: Seq<u8>, s: int) -> int {
    first_code(lengths, lengths[s] as nat) + code_rank(lengths, s)
}

/// The `k`-th bit of `msb_bits(v, n)` is bit `n - 1 - k` of `v`.
pub proof fn lemma_msb_bits_index(v: int, n: nat, k: int)
    requires
        0 <= v,
        0 <= k < n,
    ensures
        msb_bits(v, n).len() == n,
        msb_bits(v, n)[k] == ((v / pow2_small((n - 1 - k) as nat)) % 2 == 1),
    decreases n,
{
    crate::bitwriter::lemma_msb_bits_len(v, n);
    crate::bitwriter::lemma_msb_bits_len(v / 2, (n - 1) as nat);
    assert(msb_bits(v, n) == msb_bits(v / 2, (n - 1) as nat).push(v % 2 == 1));
    if k == n - 1 {
        assert(pow2_small(0) == 1);
        assert(v / 1 == v);
    } else {
        lemma_msb_bits_index(v / 2, (n - 1) as nat, k);
        let m = (n - 2 - k) as nat;
        assert(pow2_small(m + 1) == 2 * pow2_small(m));
        crate::bits::lemma_pow2_small_monotonic(0, m);
        lemma_div_denominator(v, 2, pow2_small(m));
    }
}

/// Reading one more bit of `v` from the top.
proof fn lemma_next_prefix(v: int, p: int)
    requires
        0 <= v,
        p >= 1,
    ensures
        2 * (v / (2 * p)) + (v / p) % 2 == v / p,
{
    lemma_div_denominator(v, p, 2);
    assert(p * 2 == 2 * p);
    lemma_fundamental_div_mod(v / p, 2);
}

/// `s` stands at its rank among the symbols of its length.
proof fn lemma_rank_index(lengths: Seq<u8>, s: int, k: nat)
    requires
        0 <= s < k <= lengths.len(),
        k <= 65536,
    ensures
        code_rank(lengths, s) < symbols_of_length(lengths, lengths[s] as int, k).len(),
        symbols_of_length(lengths, lengths[s] as int, k)[code_rank(lengths, s)] == s as u16,
    decreases k,
{
    let len = lengths[s] as int;
    crate::huffman::lemma_symbols_of_length_prefix(lengths, len, s as nat, k);
    if k == s + 1 {
    } else {
        lemma_rank_index(lengths, s, (k - 1) as nat);
    }
}

/// While the code is not oversubscribed, the codes of each length fit in
/// that many bits.
pub proof fn lemma_codes_fit(lengths: Seq<u8>, len: nat)
    requires
        1 <= len <= MAX_CODE_LEN,
        code_space_left(lengths, len) >= 0,
    ensures
        code_space_left(lengths, len) == pow2_small(len) - first_code(lengths, len) - code_count(
            lengths,
            len as int,
        ),
        code_count(lengths, len as int) >= 0,
    decreases len,
{
    lemma_pow2_small_step((len - 1) as nat);
    if len > 1 {
        assert(code_space_left(lengths, (len - 1) as nat) >= 0);
        lemma_codes_fit(lengths, (len - 1) as nat);
    } else {
        assert(pow2_small(0) == 1);
    }
}

/// A code that is not oversubscribed is not oversubscribed at any length.
pub proof fn lemma_space_left_monotonic(lengths: Seq<u8>, len: nat, top: nat)
    requires
        len <= top,
        code_space_left(lengths, top) >= 0,
    ensures
        code_space_left(lengths, len) >= 0,
    decreases top,
{
    if len < top {
        lemma_space_left_monotonic(lengths, len, (top - 1) as nat);
        if code_space_left(lengths, (top - 1) as nat) < 0 {
            assert(code_space_left(lengths, top) < 0);
        }
    }
}

/// The first code of a longer length is at least the codes of a shorter
/// length shifted up.
proof fn lemma_first_code_grows(lengths: Seq<u8>, len: nat, n: nat)
    requires
        1 <= len < n,
    ensures
        first_code(lengths, n) >= pow2_small((n - len) as nat) * (first_code(lengths, len)
            + code_count(lengths, len as int)),
    decreases n,
{
    let x = first_code(lengths, len) + code_count(lengths, len as int);
    crate::huffman::lemma_code_count_nonneg(lengths, len as int);
    crate::huffman::lemma_code_count_nonneg(lengths, n - 1);
    lemma_first_code_nonneg(lengths, len);
    if n == len + 1 {
        assert(pow2_small(1) == 2 * pow2_small(0));
        assert(pow2_small(0) == 1);
    } else {
        lemma_first_code_grows(lengths, len, (n - 1) as nat);
        lemma_first_code_nonneg(lengths, (n - 1) as nat);
        let m = (n - 1 - len) as nat;
        assert(pow2_small(m + 1) == 2 * pow2_small(m));
        let f1 = first_code(lengths, (n - 1) as nat);
        let c1 = code_count(lengths, n - 1);
        assert(first_code(lengths, n) == 2 * (f1 + c1));
        assert(2 * (f1 + c1) >= 2 * pow2_small(m) * x) by (nonlinear_arith)
            requires
                f1 >= pow2_small(m) * x,
                c1 >= 0,
        ;
    }
}

/// First codes are never negative.
pub proof fn lemma_first_code_nonneg(lengths: Seq<u8>, len: nat)
    ensures
        first_code(lengths, len) >= 0,
    decreases len,
{
    if len > 1 {
        lemma_first_code_nonneg(lengths, (len - 1) as nat);
        crate::huffman::lemma_code_count_nonneg(lengths, len - 1);
    }
}

/// Decoding from step `len` of the code of `s`, with the bits before it
/// read, ends with `s` after all its bits.
proof fn lemma_decode_walk(lengths: Seq<u8>, input: Seq<u8>, pos: int, s: int, len: nat)
    requires
        0 <= s < lengths.len() <= 65536,
        1 <= len <= lengths[s] <= MAX_CODE_LEN,
        code_space_left(lengths, MAX_CODE_LEN as nat) >= 0,
        bits_at(input, pos, msb_bits(canonical_code(lengths, s), lengths[s] as nat)),
    ensures
        ({
            let n = lengths[s] as nat;
            let v = canonical_code(lengths, s);
            decode_from(
                lengths,
                input,
                pos + len - 1,
                len as int,
                2 * (v / pow2_small((n - len + 1) as nat)),
                first_code(lengths, len),
            ) == Ok::<(u16, int), crate::Error>((s as u16, pos + n))
        }),
    decreases lengths[s] - len,
{
    let n = lengths[s] as nat;
    let v = canonical_code(lengths, s);
    let p = pow2_small((n - len) as nat);
    lemma_pow2_small_monotonic(0, (n - len) as nat);
    lemma_pow2_small_step((n - len) as nat);
    lemma_first_code_nonneg(lengths, n);
    assert(v >= 0);
    lemma_msb_bits_index(v, n, len - 1);
    assert(bit_at(input, pos + (len - 1)) == bit_value(msb_bits(v, n)[len - 1]));
    lemma_next_prefix(v, p);
    let c = v / p;
    assert(2 * (v / pow2_small((n - len + 1) as nat)) + bit_at(input, pos + len - 1) == c);
    lemma_space_left_monotonic(lengths, len, MAX_CODE_LEN as nat);
    lemma_space_left_monotonic(lengths, n, MAX_CODE_LEN as nat);
    lemma_codes_fit(lengths, n);
    lemma_rank_index(lengths, s, lengths.len());
    if len < n {
        lemma_first_code_grows(lengths, len, n);
        let x = first_code(lengths, len) + code_count(lengths, len as int);
        assert(v >= p * x);
        assert(c >= x) by {
            vstd::arithmetic::div_mod::lemma_div_is_ordered(p * x, v, p);
            vstd::arithmetic::div_mod::lemma_div_multiples_vanish(x, p);
            assert(p * x == x * p) by (nonlinear_arith);
        }
        lemma_decode_step_on(
            lengths,
            input,
            pos + len - 1,
            len as int,
            2 * (v / pow2_small((n - len + 1) as nat)),
            first_code(lengths, len),
        );
        lemma_decode_walk(lengths, input, pos, s, len + 1);
        assert((n - (len + 1) + 1) as nat == (n - len) as nat);
    } else {
        assert(p == 1);
        assert(c == v);
        lemma_decode_step_hit(
            lengths,
            input,
            pos + len - 1,
            len as int,
            2 * (v / pow2_small((n - len + 1) as nat)),
            first_code(lengths, len),
        );
    }
}

/// The code of a symbol decodes to it, in any code that is not
/// oversubscribed.
pub proof fn lemma_canonical_decode(lengths: Seq<u8>, input: Seq<u8>, pos: int, s: int)
    requires
        0 <= s < lengths.len() <= 65536,
        1 <= lengths[s] <= MAX_CODE_LEN,
        code_space_left(lengths, MAX_CODE_LEN as nat) >= 0,
        bits_at(input, pos, msb_bits(canonical_code(lengths, s), lengths[s] as nat)),
    ensures
        decode_symbol(lengths, input, pos) == Ok::<(u16, int), crate::Error>(
            (s as u16, pos + lengths[s]),
        ),
{
    let n = lengths[s] as nat;
    let v = canonical_code(lengths, s);
    lemma_space_left_monotonic(lengths, n, MAX_CODE_LEN as nat);
    lemma_codes_fit(lengths, n);
    lemma_rank_index(lengths, s, lengths.len());
    lemma_first_code_nonneg(lengths, n);
    assert(0 <= v < pow2_small(n));
    assert(v / pow2_small(n) == 0) by {
        vstd::arithmetic::div_mod::lemma_basic_div(v, pow2_small(n));
    }
    lemma_decode_walk(lengths, input, pos, s, 1);
    assert((n - 1 + 1) as nat == n);
}

/// The code of every symbol with a code length from 1 to 15, in a code that
/// is not oversubscribed; other entries are 0.
pub fn canonical_codes(lengths: &Vec<u8>) -> (r: Vec<u32>)
    requires
        lengths@.len() <= 65536,
        code_space_left(lengths@, MAX_CODE_LEN as nat) >= 0,
    ensures
        r@.len() == lengths@.len(),
        forall|s: int|
            0 <= s < lengths@.len() && 1 <= lengths@[s] <= MAX_CODE_LEN ==> #[trigger] r@[s]
                == canonical_code(lengths@, s),
{
    let n = lengths.len();
    let mut codes: Vec<u32> = Vec::new();
    let mut i: usize = 0;
    while i < n
        invariant
            i <= n == lengths@.len(),
            codes@.len() == i,
        decreases n - i,
    {
        codes.push(0);
        i = i + 1;
    }
    let mut code: u32 = 0;
    let mut len: usize = 1;
    proof {
        crate::bits::lemma_pow2_small_values();
    }
    while len <= MAX_CODE_LEN
        invariant
            1 <= len <= MAX_CODE_LEN + 1,
            n == lengths@.len() <= 65536,
            codes@.len() == n,
            code_space_left(lengths@, MAX_CODE_LEN as nat) >= 0,
            len <= MAX_CODE_LEN ==> code == first_code(lengths@, len as nat),
            code <= 65536,
            forall|s: int|
                0 <= s < n && 1 <= lengths@[s] < len ==> #[trigger] codes@[s] == canonical_code(
                    lengths@,
                    s,
                ),
        decreases MAX_CODE_LEN + 1 - len,
    {
        proof {
            lemma_space_left_monotonic(lengths@, len as nat, MAX_CODE_LEN as nat);
            lemma_codes_fit(lengths@, len as nat);
            lemma_first_code_nonneg(lengths@, len as nat);
            crate::bits::lemma_pow2_small_monotonic(len as nat, 15);
            crate::bits::lemma_pow2_small_step(15);
            crate::bits::lemma_pow2_small_16();
            assert(code_space_left(lengths@, len as nat) >= 0);
        }
        let ghost first = code as int;
        let mut s: usize = 0;
        while s < n
            invariant
                1 <= len <= MAX_CODE_LEN,
                s <= n == lengths@.len() <= 65536,
                codes@.len() == n,
                first == first_code(lengths@, len as nat),
                code == first + symbols_of_length(lengths@, len as int, s as nat).len(),
                first + code_count(lengths@, len as int) <= pow2_small(len as nat) <= 32768,
                forall|t: int|
                    0 <= t < n && 1 <= lengths@[t] < len ==> #[trigger] codes@[t]
                        == canonical_code(lengths@, t),
                forall|t: int|
                    0 <= t < s && lengths@[t] == len ==> #[trigger] codes@[t] == canonical_code(
                        lengths@,
                        t,
                    ),
            decreases n - s,
        {
            proof {
                crate::huffman::lemma_symbols_of_length_len(lengths@, len as int, (s + 1) as nat);
                crate::huffman::lemma_symbols_of_length_prefix_len(
                    lengths@,
                    len as int,
                    (s + 1) as nat,
                    n as nat,
                );
            }
            if lengths[s] as usize == len {
                codes.set(s, code);
                code = code + 1;
            }
            s = s + 1;
        }
        code = 2 * code;
        len = len + 1;
    }
    codes
}

} // verus!
