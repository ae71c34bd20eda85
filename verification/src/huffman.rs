//! Canonical Huffman codes of DEFLATE (RFC 1951, section 3.2.2).
//!
//! A code is given by the code length of each symbol; a length of 0 means the
//! symbol has no code. Codes of one length are consecutive integers taken in
//! increasing symbol order, and the first code of length `len + 1` is twice the
//! integer that follows the last code of length `len`. Code bits are stored
//! starting with the most significant one.
use vstd::prelude::*;
use crate::bits::{
    bit_at, lemma_pow2_small_step, lemma_within_bounds, pow2_small, read_bit, total_bits, BitPos,
};
use crate::Error;

verus! {

/// The longest code length DEFLATE allows.
pub const MAX_CODE_LEN: usize = 15;

/// The most symbols a DEFLATE code table has (286 literal/length symbols and
/// 30 distance symbols read as one list, rounded up).
pub const MAX_SYMBOLS: usize = 320;

/// The symbols below `k` whose code length is `len`, in increasing order.
pub open spec fn symbols_of_length(lengths: Seq<u8>, len: int, k: nat) -> Seq<u16>
    decreases k,
{
    if k == 0 {
        Seq::empty()
    } else {
        let s = symbols_of_length(lengths, len, (k - 1) as nat);
        if lengths[k - 1] == len {
            s.push((k - 1) as u16)
        } else {
            s
        }
    }
}

/// The number of symbols whose code length is `len`.
pub open spec fn code_count(lengths: Seq<u8>, len: int) -> int {
    symbols_of_length(lengths, len, lengths.len()).len() as int
}

/// The coded symbols with lengths from 1 to `max_len`, ordered by length and
/// then by symbol: the order in which codes are handed out.
pub open spec fn canonical_order(lengths: Seq<u8>, max_len: nat) -> Seq<u16>
    decreases max_len,
{
    if max_len == 0 {
        Seq::empty()
    } else {
        canonical_order(lengths, (max_len - 1) as nat) + symbols_of_length(
            lengths,
            max_len as int,
            lengths.len(),
        )
    }
}

/// How many codes of length `len` are still free once lengths 1 to `len`
/// are handed out; the first negative value, when the code is
/// oversubscribed, is kept from there on.
pub open spec fn code_space_left(lengths: Seq<u8>, len: nat) -> int
    decreases len,
{
    if len == 0 {
        1
    } else {
        let left = code_space_left(lengths, (len - 1) as nat);
        if left < 0 {
            left
        } else {
            2 * left - code_count(lengths, len as int)
        }
    }
}

/// Decodes one symbol whose first `len - 1` bits, read before `pos`, form
/// `code`, where `first` is the first code of length `len - 1`, doubled.
pub open spec fn decode_from(
    lengths: Seq<u8>,
    input: Seq<u8>,
    pos: int,
    len: int,
    code: int,
    first: int,
) -> Result<(u16, int), Error>
    decreases 16 - len,
{
    if len > MAX_CODE_LEN || len < 1 {
        Err(Error::InvalidBitstream)
    } else if pos >= total_bits(input) {
        Err(Error::Underflow)
    } else {
        let c = code + bit_at(input, pos);
        let count = code_count(lengths, len);
        if c < first + count {
            Ok((symbols_of_length(lengths, len, lengths.len())[c - first], pos + 1))
        } else {
            decode_from(lengths, input, pos + 1, len + 1, 2 * c, 2 * (first + count))
        }
    }
}

/// The symbol whose code starts at bit `pos`, and the position after it:
/// `Underflow` when the input ends first, `InvalidBitstream` when no code of
/// up to fifteen bits matches.
pub open spec fn decode_symbol(lengths: Seq<u8>, input: Seq<u8>, pos: int) -> Result<
    (u16, int),
    Error,
> {
    decode_from(lengths, input, pos, 1, 0, 0)
}

/// There are at most `k` symbols of a length below `k`, and each is below `k`.
pub proof fn lemma_symbols_of_length_len(lengths: Seq<u8>, len: int, k: nat)
    ensures
        symbols_of_length(lengths, len, k).len() <= k,
        forall|i: int|
            0 <= i < symbols_of_length(lengths, len, k).len() ==> symbols_of_length(
                lengths,
                len,
                k,
            )[i] < k,
    decreases k,
{
    if k > 0 {
        lemma_symbols_of_length_len(lengths, len, (k - 1) as nat);
    }
}

/// Code counts are never negative.
pub proof fn lemma_code_count_nonneg(lengths: Seq<u8>, len: int)
    ensures
        code_count(lengths, len) >= 0,
{
}

/// The symbols of a length below `a` come first among those below `b`.
pub proof fn lemma_symbols_of_length_prefix(lengths: Seq<u8>, len: int, a: nat, b: nat)
    requires
        a < b <= lengths.len(),
        b <= 65536,
        lengths[a as int] == len,
    ensures
        symbols_of_length(lengths, len, a).len() < symbols_of_length(lengths, len, b).len(),
        symbols_of_length(lengths, len, b)[symbols_of_length(lengths, len, a).len() as int]
            == a as u16,
    decreases b,
{
    if b > a + 1 {
        lemma_symbols_of_length_prefix(lengths, len, a, (b - 1) as nat);
    }
}

/// Fewer symbols give no more symbols of a length.
pub proof fn lemma_symbols_of_length_prefix_len(lengths: Seq<u8>, len: int, a: nat, b: nat)
    requires
        a <= b,
    ensures
        symbols_of_length(lengths, len, a).len() <= symbols_of_length(lengths, len, b).len(),
    decreases b,
{
    if b > a {
        lemma_symbols_of_length_prefix_len(lengths, len, a, (b - 1) as nat);
    }
}

/// The canonical order up to a length starts with the order up to a shorter one.
proof fn lemma_canonical_prefix(lengths: Seq<u8>, a: nat, b: nat)
    requires
        a <= b,
    ensures
        canonical_order(lengths, a).len() <= canonical_order(lengths, b).len(),
        forall|i: int|
            0 <= i < canonical_order(lengths, a).len() ==> canonical_order(lengths, b)[i]
                == canonical_order(lengths, a)[i],
    decreases b,
{
    if b > a {
        lemma_canonical_prefix(lengths, a, (b - 1) as nat);
    }
}

/// Decoding goes on to the next code length when the bits read so far are
/// past the codes of the current length.
pub proof fn lemma_decode_step_on(
    lengths: Seq<u8>,
    input: Seq<u8>,
    pos: int,
    len: int,
    code: int,
    first: int,
)
    requires
        1 <= len <= MAX_CODE_LEN,
        0 <= pos < total_bits(input),
        code + bit_at(input, pos) >= first + code_count(lengths, len),
    ensures
        decode_from(lengths, input, pos, len, code, first) == decode_from(
            lengths,
            input,
            pos + 1,
            len + 1,
            2 * (code + bit_at(input, pos)),
            2 * (first + code_count(lengths, len)),
        ),
{
}

/// Decoding stops at the code length whose codes hold the bits read so far.
pub proof fn lemma_decode_step_hit(
    lengths: Seq<u8>,
    input: Seq<u8>,
    pos: int,
    len: int,
    code: int,
    first: int,
)
    requires
        1 <= len <= MAX_CODE_LEN,
        0 <= pos < total_bits(input),
        code + bit_at(input, pos) < first + code_count(lengths, len),
    ensures
        decode_from(lengths, input, pos, len, code, first) == Ok::<(u16, int), Error>(
            (
                symbols_of_length(lengths, len, lengths.len())[code + bit_at(input, pos) - first],
                pos + 1,
            ),
        ),
{
}

/// A canonical Huffman code, ready for decoding.
pub struct Huffman {
    /// `counts[len]` is the number of symbols with code length `len`.
    counts: Vec<usize>,
    /// The coded symbols in canonical order.
    symbols: Vec<u16>,
    /// The code lengths the table was built from.
    lengths: Ghost<Seq<u8>>,
}

impl Huffman {
    /// The code lengths the table decodes by.
    pub closed spec fn code_lengths(&self) -> Seq<u8> {
        self.lengths@
    }

    /// The tables agree with the code lengths.
    pub closed spec fn wf(&self) -> bool {
        &&& self.lengths@.len() <= MAX_SYMBOLS
        &&& self.counts@.len() == MAX_CODE_LEN + 1
        &&& forall|len: int|
            1 <= len <= MAX_CODE_LEN ==> #[trigger] self.counts@[len] == code_count(
                self.lengths@,
                len,
            )
        &&& self.symbols@ == canonical_order(self.lengths@, MAX_CODE_LEN as nat)
    }

    /// Builds the decoding tables for the code with the given code lengths.
    pub fn build(lengths: &[u8]) -> (r: Huffman)
        requires
            lengths@.len() <= MAX_SYMBOLS,
        ensures
            r.wf(),
            r.code_lengths() == lengths@,
    {
        let n = lengths.len();
        let mut counts: Vec<usize> = Vec::new();
        counts.push(0);
        let mut symbols: Vec<u16> = Vec::new();
        let mut len: usize = 1;
        while len <= MAX_CODE_LEN
            invariant
                1 <= len <= MAX_CODE_LEN + 1,
                n == lengths@.len() <= MAX_SYMBOLS,
                counts@.len() == len,
                forall|l: int| 1 <= l < len ==> #[trigger] counts@[l] == code_count(lengths@, l),
                symbols@ == canonical_order(lengths@, (len - 1) as nat),
            decreases MAX_CODE_LEN + 1 - len,
        {
            let mut sym: usize = 0;
            let mut count: usize = 0;
            while sym < n
                invariant
                    1 <= len <= MAX_CODE_LEN,
                    sym <= n == lengths@.len() <= MAX_SYMBOLS,
                    symbols@ == canonical_order(lengths@, (len - 1) as nat) + symbols_of_length(
                        lengths@,
                        len as int,
                        sym as nat,
                    ),
                    count == symbols_of_length(lengths@, len as int, sym as nat).len(),
                decreases n - sym,
            {
                proof {
                    lemma_symbols_of_length_len(lengths@, len as int, sym as nat);
                }
                if lengths[sym] as usize == len {
                    symbols.push(sym as u16);
                    count = count + 1;
                }
                sym = sym + 1;
            }
            counts.push(count);
            len = len + 1;
        }
        Huffman { counts, symbols, lengths: Ghost(lengths@) }
    }

    /// The free code space left after all lengths: negative when the code is
    /// oversubscribed, zero when it is complete, positive when incomplete.
    pub fn space_left(&self) -> (r: i64)
        requires
            self.wf(),
        ensures
            r == code_space_left(self.code_lengths(), MAX_CODE_LEN as nat),
    {
        let mut left: i64 = 1;
        let mut len: usize = 1;
        while len <= MAX_CODE_LEN
            invariant
                1 <= len <= MAX_CODE_LEN + 1,
                self.wf(),
                left == code_space_left(self.lengths@, (len - 1) as nat),
                left <= pow2_small((len - 1) as nat),
            decreases MAX_CODE_LEN + 1 - len,
        {
            proof {
                lemma_symbols_of_length_len(self.lengths@, len as int, self.lengths@.len());
                lemma_pow2_small_step((len - 1) as nat);
            }
            if left >= 0 {
                left = 2 * left - self.counts[len] as i64;
            }
            len = len + 1;
        }
        left
    }

    /// Decodes the symbol whose code starts at `p`, moving `p` past it.
    pub fn decode(&self, input: &[u8], p: &mut BitPos) -> (r: Result<u16, Error>)
        requires
            self.wf(),
            old(p).within(input@),
        ensures
            final(p).within(input@),
            match decode_symbol(self.code_lengths(), input@, old(p).at()) {
                Ok((s, q)) => r == Ok::<u16, Error>(s) && final(p).at() == q,
                Err(e) => r == Err::<u16, Error>(e),
            },
    {
        let ghost lengths = self.lengths@;
        let ghost start = p.at();
        let mut code: u64 = 0;
        let mut first: u64 = 0;
        let mut index: usize = 0;
        let mut len: usize = 1;
        proof {
            lemma_pow2_small_step(0);
        }
        while len <= MAX_CODE_LEN
            invariant
                1 <= len <= MAX_CODE_LEN + 1,
                self.wf(),
                lengths == self.lengths@,
                p.within(input@),
                start == old(p).at(),
                decode_from(lengths, input@, p.at(), len as int, code as int, first as int)
                    == decode_symbol(lengths, input@, start),
                first <= code,
                code % 2 == 0,
                code < pow2_small(len as nat),
                index == canonical_order(lengths, (len - 1) as nat).len(),
            decreases MAX_CODE_LEN + 1 - len,
        {
            proof {
                lemma_within_bounds(*p, input@);
            }
            let b = read_bit(input, p);
            match b {
                None => {
                    return Err(Error::Underflow);
                },
                Some(bit) => {
                    let c = code + bit as u64;
                    let count = self.counts[len];
                    assert(count == code_count(lengths, len as int));
                    proof {
                        lemma_pow2_small_step((len - 1) as nat);
                        lemma_pow2_small_step(len as nat);
                        lemma_canonical_prefix(lengths, len as nat, MAX_CODE_LEN as nat);
                        lemma_symbols_of_length_len(lengths, len as int, lengths.len());
                        assert(canonical_order(lengths, len as nat) == canonical_order(
                            lengths,
                            (len - 1) as nat,
                        ) + symbols_of_length(lengths, len as int, lengths.len()));
                    }
                    let total = self.symbols.len();
                    assert(index + count == canonical_order(lengths, len as nat).len());
                    assert(index + count <= total);
                    if c - first < count as u64 {
                        let j = (c - first) as usize;
                        let s = self.symbols[index + j];
                        assert(s == symbols_of_length(lengths, len as int, lengths.len())[j as int]);
                        return Ok(s);
                    }
                    index = index + count;
                    first = 2 * (first + count as u64);
                    code = 2 * c;
                    len = len + 1;
                },
            }
        }
        Err(Error::InvalidBitstream)
    }
}

} // verus!
