//! Reading a DEFLATE bitstream: bits are taken from each byte starting at its
//! least significant bit, and a bit position counts from the first bit of the
//! first byte.
use vstd::prelude::*;

verus! {

/// The number of bits in `input`.
pub open spec fn total_bits(input: Seq<u8>) -> int {
    input.len() as int * 8
}

/// The bit at position `pos` of `input` (0 or 1).
pub open spec fn bit_at(input: Seq<u8>, pos: int) -> int {
    ((input[pos / 8] >> ((pos % 8) as u8)) & 1u8) as int
}

/// The `n` bits from position `pos` read as a number, the first bit being
/// the least significant one.
pub open spec fn bits_value(input: Seq<u8>, pos: int, n: nat) -> int
    decreases n,
{
    if n == 0 {
        0
    } else {
        bit_at(input, pos) + 2 * bits_value(input, pos + 1, (n - 1) as nat)
    }
}

/// The value of `n` bits is below `2^n`.
pub proof fn lemma_bits_value_bound(input: Seq<u8>, pos: int, n: nat)
    ensures
        0 <= bits_value(input, pos, n) < pow2_small(n),
    decreases n,
{
    if n > 0 {
        lemma_bits_value_bound(input, pos + 1, (n - 1) as nat);
        lemma_bit_at_range(input, pos);
    }
}

/// A bit is 0 or 1.
pub proof fn lemma_bit_at_range(input: Seq<u8>, pos: int)
    ensures
        0 <= bit_at(input, pos) <= 1,
{
    let x = input[pos / 8];
    let s = (pos % 8) as u8;
    assert((x >> s) & 1u8 <= 1u8) by (bit_vector);
}

/// A read position in a byte buffer: a byte index and a bit index within it.
#[derive(Copy, Clone)]
pub struct BitPos {
    pub byte: usize,
    pub bit: u8,
}

impl BitPos {
    /// The position as a bit count from the start of the buffer.
    pub open spec fn at(self) -> int {
        self.byte as int * 8 + self.bit as int
    }

    /// The position lies within `input`, or just past its last bit.
    pub open spec fn within(self, input: Seq<u8>) -> bool {
        &&& self.bit < 8
        &&& self.byte <= input.len()
        &&& self.byte == input.len() ==> self.bit == 0
    }

    /// The start of a buffer.
    pub fn start() -> (r: BitPos)
        ensures
            r.at() == 0,
            r.bit == 0,
    {
        BitPos { byte: 0, bit: 0 }
    }
}

/// A bit position splits into its byte and its bit within the byte.
pub proof fn lemma_bit_index(byte: int, bit: int)
    requires
        0 <= bit < 8,
        0 <= byte,
    ensures
        (byte * 8 + bit) / 8 == byte,
        (byte * 8 + bit) % 8 == bit,
{
    assert((byte * 8 + bit) / 8 == byte && (byte * 8 + bit) % 8 == bit) by (nonlinear_arith)
        requires
            0 <= bit < 8,
            0 <= byte,
    ;
}

/// A valid position is at most the number of bits in the buffer.
pub proof fn lemma_within_bounds(p: BitPos, input: Seq<u8>)
    requires
        p.within(input),
    ensures
        0 <= p.at() <= total_bits(input),
        p.at() < total_bits(input) <==> p.byte < input.len(),
{
}

/// Reads the bit at `p`, or `None` when `p` is past the last bit; the
/// position moves on by one bit.
pub fn read_bit(input: &[u8], p: &mut BitPos) -> (r: Option<u8>)
    requires
        old(p).within(input@),
    ensures
        final(p).within(input@),
        old(p).at() < total_bits(input@) ==> r == Some(bit_at(input@, old(p).at()) as u8)
            && final(p).at() == old(p).at() + 1,
        old(p).at() >= total_bits(input@) ==> r is None && *final(p) == *old(p),
        r matches Some(b) ==> b <= 1,
{
    if p.byte >= input.len() {
        return None;
    }
    proof {
        lemma_bit_index(p.byte as int, p.bit as int);
    }
    let byte = input[p.byte];
    let shift = p.bit;
    assert((byte >> shift) & 1u8 <= 1u8) by (bit_vector);
    let b = (byte >> shift) & 1u8;
    assert(b == bit_at(input@, p.at()));
    if p.bit == 7 {
        p.bit = 0;
        p.byte = p.byte + 1;
    } else {
        p.bit = p.bit + 1;
    }
    Some(b)
}

/// Reads `n` bits at `p` as a number, first bit least significant, or `None`
/// when fewer than `n` bits are left.
pub fn read_bits(input: &[u8], p: &mut BitPos, n: u8) -> (r: Option<u32>)
    requires
        old(p).within(input@),
        n <= 16,
    ensures
        final(p).within(input@),
        old(p).at() + n <= total_bits(input@) ==> (r matches Some(v) && v as int == bits_value(
            input@,
            old(p).at(),
            n as nat,
        ) && final(p).at() == old(p).at() + n),
        old(p).at() + n > total_bits(input@) ==> r is None,
        r matches Some(v) ==> v < 65536,
{
    let ghost start = p.at();
    let mut k: u8 = 0;
    let mut value: u32 = 0;
    let mut weight: u32 = 1;
    while k < n
        invariant
            k <= n <= 16,
            start == old(p).at(),
            p.within(input@),
            p.at() == start + k,
            weight == pow2_small(k as nat),
            value < weight,
            weight <= 65536,
            value == low_bits(input@, start, k as nat),
        decreases n - k,
    {
        let b = read_bit(input, p);
        match b {
            None => {
                return None;
            },
            Some(bit) => {
                proof {
                    lemma_low_bits_step(input@, start, k as nat);
                    lemma_pow2_small_step(k as nat);
                }
                if bit == 1 {
                    assert(pow2_small(k as nat) * bit_at(input@, start + k) == weight)
                        by (nonlinear_arith)
                        requires
                            bit_at(input@, start + k) == 1,
                            weight == pow2_small(k as nat),
                    ;
                    value = value + weight;
                } else {
                    assert(pow2_small(k as nat) * bit_at(input@, start + k) == 0)
                        by (nonlinear_arith)
                        requires
                            bit_at(input@, start + k) == 0,
                    ;
                }
                weight = weight * 2;
                k = k + 1;
            },
        }
    }
    proof {
        lemma_low_bits_is_value(input@, start, n as nat);
    }
    Some(value)
}

/// `2^k`, for the small exponents that bit fields use.
pub open spec fn pow2_small(k: nat) -> int
    decreases k,
{
    if k == 0 {
        1
    } else {
        2 * pow2_small((k - 1) as nat)
    }
}

/// One step up the powers of two, below `2^16`.
pub proof fn lemma_pow2_small_step(k: nat)
    requires
        k < 16,
    ensures
        pow2_small(k + 1) == 2 * pow2_small(k),
        pow2_small(k + 1) <= 65536,
        pow2_small(k) >= 1,
{
    lemma_pow2_small_pos(k);
    reveal_with_fuel(pow2_small, 17);
    assert(pow2_small(16) == 65536);
    lemma_pow2_small_monotonic(k + 1, 16);
}

/// Powers of two grow with the exponent and are at least 1.
pub proof fn lemma_pow2_small_monotonic(k: nat, j: nat)
    requires
        k <= j,
    ensures
        1 <= pow2_small(k) <= pow2_small(j),
    decreases j,
{
    if j > k {
        lemma_pow2_small_monotonic(k, (j - 1) as nat);
    } else {
        lemma_pow2_small_pos(k);
    }
}

/// The powers of two up to `2^7`.
pub proof fn lemma_pow2_small_values()
    ensures
        pow2_small(0) == 1,
        pow2_small(1) == 2,
        pow2_small(2) == 4,
        pow2_small(3) == 8,
        pow2_small(4) == 16,
        pow2_small(5) == 32,
        pow2_small(6) == 64,
        pow2_small(7) == 128,
{
    reveal_with_fuel(pow2_small, 8);
}

/// `2^16` is 65536.
pub proof fn lemma_pow2_small_16()
    ensures
        pow2_small(16) == 65536,
{
    reveal_with_fuel(pow2_small, 17);
}

/// Powers of two are at least 1.
proof fn lemma_pow2_small_pos(k: nat)
    ensures
        pow2_small(k) >= 1,
    decreases k,
{
    if k > 0 {
        lemma_pow2_small_pos((k - 1) as nat);
    }
}

/// The first `k` bits from `start`, summed with their weights from the low end.
spec fn low_bits(input: Seq<u8>, start: int, k: nat) -> int
    decreases k,
{
    if k == 0 {
        0
    } else {
        low_bits(input, start, (k - 1) as nat) + pow2_small((k - 1) as nat) * bit_at(
            input,
            start + k - 1,
        )
    }
}

/// One more bit read from the low end.
proof fn lemma_low_bits_step(input: Seq<u8>, start: int, k: nat)
    ensures
        low_bits(input, start, k + 1) == low_bits(input, start, k) + pow2_small(k) * bit_at(
            input,
            start + k,
        ),
{
}

/// Summing bits from the low end gives their value.
proof fn lemma_low_bits_is_value(input: Seq<u8>, start: int, k: nat)
    ensures
        low_bits(input, start, k) == bits_value(input, start, k),
    decreases k,
{
    if k > 0 {
        lemma_low_bits_is_value(input, start + 1, (k - 1) as nat);
        lemma_low_bits_shift(input, start, (k - 1) as nat);
    }
}

/// Bits from the low end: the first bit plus twice the rest.
proof fn lemma_low_bits_shift(input: Seq<u8>, start: int, k: nat)
    ensures
        low_bits(input, start, k + 1) == bit_at(input, start) + 2 * low_bits(input, start + 1, k),
    decreases k,
{
    if k == 0 {
        assert(pow2_small(0) == 1);
        assert(low_bits(input, start, 0) == 0);
        assert(pow2_small(0) * bit_at(input, start) == bit_at(input, start)) by (nonlinear_arith)
            requires
                pow2_small(0) == 1,
        ;
        assert(low_bits(input, start, 1) == bit_at(input, start));
    } else {
        lemma_low_bits_shift(input, start, (k - 1) as nat);
        assert(pow2_small(k) == 2 * pow2_small((k - 1) as nat));
        assert(low_bits(input, start, k + 1) == low_bits(input, start, k) + pow2_small(k) * bit_at(
            input,
            start + k,
        ));
        assert(low_bits(input, start + 1, k) == low_bits(input, start + 1, (k - 1) as nat)
            + pow2_small((k - 1) as nat) * bit_at(input, start + 1 + k - 1));
        assert(pow2_small(k) * bit_at(input, start + k) == 2 * (pow2_small((k - 1) as nat)
            * bit_at(input, start + k))) by (nonlinear_arith)
            requires
                pow2_small(k) == 2 * pow2_small((k - 1) as nat),
        ;
    }
}

} // verus!
