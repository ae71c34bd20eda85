//! Writing a DEFLATE bitstream: bits fill each byte from its least
//! significant bit up.
use vstd::prelude::*;
use crate::bits::{bit_at, bits_value, lemma_bit_index, total_bits};

verus! {

/// `bits` as 0 and 1.
pub open spec fn bit_value(b: bool) -> int {
    if b {
        1
    } else {
        0
    }
}

/// `bytes` hold `bits` from their first bit on, and no more than the last
/// byte's worth besides.
pub open spec fn holds_bits(bytes: Seq<u8>, bits: Seq<bool>) -> bool {
    &&& bits.len() <= 8 * bytes.len()
    &&& 8 * bytes.len() < bits.len() + 8
    &&& forall|i: int| 0 <= i < bits.len() ==> #[trigger] bit_at(bytes, i) == bit_value(bits[i])
}

/// `bytes` hold exactly `bits`: the bits as `holds_bits` has them, and the
/// bits of the last byte past them clear.
pub open spec fn packs(bytes: Seq<u8>, bits: Seq<bool>) -> bool {
    &&& holds_bits(bytes, bits)
    &&& forall|i: int| bits.len() <= i < 8 * bytes.len() ==> #[trigger] bit_at(bytes, i) == 0
}

/// The bytes that hold exactly `bits`.
pub open spec fn packed(bits: Seq<bool>) -> Seq<u8> {
    choose|bytes: Seq<u8>| packs(bytes, bits)
}

/// Bit `i` of `bits` as a number, 0 past the end.
pub open spec fn bit_num(bits: Seq<bool>, i: int) -> u8 {
    if 0 <= i < bits.len() && bits[i] {
        1
    } else {
        0
    }
}

/// Byte `k` of the bytes that hold `bits`, least significant bit first.
pub open spec fn byte_of(bits: Seq<bool>, k: int) -> u8 {
    bit_num(bits, 8 * k) | (bit_num(bits, 8 * k + 1) << 1u8) | (bit_num(bits, 8 * k + 2) << 2u8)
        | (bit_num(bits, 8 * k + 3) << 3u8) | (bit_num(bits, 8 * k + 4) << 4u8) | (bit_num(
        bits,
        8 * k + 5,
    ) << 5u8) | (bit_num(bits, 8 * k + 6) << 6u8) | (bit_num(bits, 8 * k + 7) << 7u8)
}

/// The bits of a byte put together from eight bits are those bits.
proof fn lemma_byte_of_bits(b0: u8, b1: u8, b2: u8, b3: u8, b4: u8, b5: u8, b6: u8, b7: u8)
    requires
        b0 <= 1,
        b1 <= 1,
        b2 <= 1,
        b3 <= 1,
        b4 <= 1,
        b5 <= 1,
        b6 <= 1,
        b7 <= 1,
    ensures
        ({
            let x = b0 | (b1 << 1u8) | (b2 << 2u8) | (b3 << 3u8) | (b4 << 4u8) | (b5 << 5u8) | (b6
                << 6u8) | (b7 << 7u8);
            &&& (x >> 0u8) & 1u8 == b0
            &&& (x >> 1u8) & 1u8 == b1
            &&& (x >> 2u8) & 1u8 == b2
            &&& (x >> 3u8) & 1u8 == b3
            &&& (x >> 4u8) & 1u8 == b4
            &&& (x >> 5u8) & 1u8 == b5
            &&& (x >> 6u8) & 1u8 == b6
            &&& (x >> 7u8) & 1u8 == b7
        }),
{
    let x = b0 | (b1 << 1u8) | (b2 << 2u8) | (b3 << 3u8) | (b4 << 4u8) | (b5 << 5u8) | (b6 << 6u8)
        | (b7 << 7u8);
    assert({
        &&& (x >> 0u8) & 1u8 == b0
        &&& (x >> 1u8) & 1u8 == b1
        &&& (x >> 2u8) & 1u8 == b2
        &&& (x >> 3u8) & 1u8 == b3
        &&& (x >> 4u8) & 1u8 == b4
        &&& (x >> 5u8) & 1u8 == b5
        &&& (x >> 6u8) & 1u8 == b6
        &&& (x >> 7u8) & 1u8 == b7
    }) by (bit_vector)
        requires
            b0 <= 1,
            b1 <= 1,
            b2 <= 1,
            b3 <= 1,
            b4 <= 1,
            b5 <= 1,
            b6 <= 1,
            b7 <= 1,
            x == b0 | (b1 << 1u8) | (b2 << 2u8) | (b3 << 3u8) | (b4 << 4u8) | (b5 << 5u8) | (b6
                << 6u8) | (b7 << 7u8),
    ;
}

/// Bit `j` of byte `k` of the bytes that hold `bits` is bit `8k + j`.
proof fn lemma_byte_of_bit(bits: Seq<bool>, k: int, j: int)
    requires
        0 <= j < 8,
    ensures
        (byte_of(bits, k) >> (j as u8)) & 1u8 == bit_num(bits, 8 * k + j),
{
    lemma_byte_of_bits(
        bit_num(bits, 8 * k),
        bit_num(bits, 8 * k + 1),
        bit_num(bits, 8 * k + 2),
        bit_num(bits, 8 * k + 3),
        bit_num(bits, 8 * k + 4),
        bit_num(bits, 8 * k + 5),
        bit_num(bits, 8 * k + 6),
        bit_num(bits, 8 * k + 7),
    );
}

/// Some bytes hold exactly any bits, so `packed` gives them, and there are
/// as many as the bits need.
pub proof fn lemma_packed(bits: Seq<bool>)
    ensures
        packs(packed(bits), bits),
        packed(bits).len() == (bits.len() + 7) / 8,
{
    let n = (bits.len() + 7) / 8;
    let bytes = Seq::new(n as nat, |k: int| byte_of(bits, k));
    assert forall|i: int| 0 <= i < 8 * bytes.len() implies #[trigger] bit_at(bytes, i) == bit_num(
        bits,
        i,
    ) by {
        let k = i / 8;
        let j = i % 8;
        lemma_byte_of_bit(bits, k, j);
        assert(8 * k + j == i);
    }
    assert(packs(bytes, bits));
    lemma_packs_unique(bytes, bits);
}

/// A byte is given by its eight bits.
proof fn lemma_byte_by_bits(a: u8, b: u8)
    requires
        (a >> 0u8) & 1u8 == (b >> 0u8) & 1u8,
        (a >> 1u8) & 1u8 == (b >> 1u8) & 1u8,
        (a >> 2u8) & 1u8 == (b >> 2u8) & 1u8,
        (a >> 3u8) & 1u8 == (b >> 3u8) & 1u8,
        (a >> 4u8) & 1u8 == (b >> 4u8) & 1u8,
        (a >> 5u8) & 1u8 == (b >> 5u8) & 1u8,
        (a >> 6u8) & 1u8 == (b >> 6u8) & 1u8,
        (a >> 7u8) & 1u8 == (b >> 7u8) & 1u8,
    ensures
        a == b,
{
    assert(a == b) by (bit_vector)
        requires
            (a >> 0u8) & 1u8 == (b >> 0u8) & 1u8,
            (a >> 1u8) & 1u8 == (b >> 1u8) & 1u8,
            (a >> 2u8) & 1u8 == (b >> 2u8) & 1u8,
            (a >> 3u8) & 1u8 == (b >> 3u8) & 1u8,
            (a >> 4u8) & 1u8 == (b >> 4u8) & 1u8,
            (a >> 5u8) & 1u8 == (b >> 5u8) & 1u8,
            (a >> 6u8) & 1u8 == (b >> 6u8) & 1u8,
            (a >> 7u8) & 1u8 == (b >> 7u8) & 1u8,
    ;
}

/// Two byte sequences that hold exactly the same bits agree on bit `j` of
/// byte `k`.
proof fn lemma_same_bit(x: Seq<u8>, y: Seq<u8>, bits: Seq<bool>, k: int, j: u8)
    requires
        packs(x, bits),
        packs(y, bits),
        x.len() == y.len(),
        0 <= k < x.len(),
        j < 8,
    ensures
        (x[k] >> j) & 1u8 == (y[k] >> j) & 1u8,
{
    let i = k * 8 + j;
    lemma_bit_index(k, j as int);
    if i < bits.len() {
        assert(bit_at(x, i) == bit_value(bits[i]));
        assert(bit_at(y, i) == bit_value(bits[i]));
    } else {
        assert(bit_at(x, i) == 0);
        assert(bit_at(y, i) == 0);
    }
}

/// Only one sequence of bytes holds exactly some bits, so `packed` is it.
pub proof fn lemma_packs_unique(x: Seq<u8>, bits: Seq<bool>)
    requires
        packs(x, bits),
    ensures
        x == packed(bits),
{
    let y = packed(bits);
    assert(packs(y, bits));
    assert(x.len() == y.len());
    assert forall|k: int| 0 <= k < x.len() implies x[k] == y[k] by {
        lemma_same_bit(x, y, bits, k, 0);
        lemma_same_bit(x, y, bits, k, 1);
        lemma_same_bit(x, y, bits, k, 2);
        lemma_same_bit(x, y, bits, k, 3);
        lemma_same_bit(x, y, bits, k, 4);
        lemma_same_bit(x, y, bits, k, 5);
        lemma_same_bit(x, y, bits, k, 6);
        lemma_same_bit(x, y, bits, k, 7);
        lemma_byte_by_bits(x[k], y[k]);
    }
    assert(x =~= y);
}

/// `n` bits of `v`, least significant first.
pub open spec fn lsb_bits(v: int, n: nat) -> Seq<bool>
    decreases n,
{
    if n == 0 {
        Seq::empty()
    } else {
        seq![v % 2 == 1] + lsb_bits(v / 2, (n - 1) as nat)
    }
}

/// `n` bits of `v`, most significant first: how Huffman codes are stored.
pub open spec fn msb_bits(v: int, n: nat) -> Seq<bool>
    decreases n,
{
    if n == 0 {
        Seq::empty()
    } else {
        msb_bits(v / 2, (n - 1) as nat).push(v % 2 == 1)
    }
}

/// The bits of `bytes + rest` at an offset are the bits of `bytes` there.
pub proof fn lemma_bit_at_concat(pre: Seq<u8>, bytes: Seq<u8>, rest: Seq<u8>, i: int)
    requires
        0 <= i < 8 * bytes.len(),
    ensures
        bit_at(pre + bytes + rest, 8 * pre.len() + i) == bit_at(bytes, i),
{
    let b = i / 8;
    let j = i % 8;
    assert(i == b * 8 + j && 0 <= j < 8 && 0 <= b < bytes.len());
    lemma_bit_index(pre.len() + b, j);
    lemma_bit_index(b, j);
    assert(8 * pre.len() + i == (pre.len() + b) * 8 + j);
    assert((pre + bytes + rest)[pre.len() + b] == bytes[b]);
}

/// The number whose bits, least significant first, are `bits`.
pub open spec fn lsb_number(bits: Seq<bool>) -> int
    decreases bits.len(),
{
    if bits.len() == 0 {
        0
    } else {
        bit_value(bits[0]) + 2 * lsb_number(bits.drop_first())
    }
}

/// Bits in the input read back as the number they spell.
pub proof fn lemma_read_bits_number(input: Seq<u8>, pos: int, bits: Seq<bool>)
    requires
        forall|k: int| 0 <= k < bits.len() ==> #[trigger] bit_at(input, pos + k) == bit_value(bits[k]),
    ensures
        bits_value(input, pos, bits.len()) == lsb_number(bits),
    decreases bits.len(),
{
    if bits.len() > 0 {
        let rest = bits.drop_first();
        assert forall|k: int| 0 <= k < rest.len() implies #[trigger] bit_at(input, (pos + 1) + k)
            == bit_value(rest[k]) by {
            assert(bit_at(input, pos + (k + 1)) == bit_value(bits[k + 1]));
            assert(pos + (k + 1) == (pos + 1) + k);
        }
        lemma_read_bits_number(input, pos + 1, rest);
        assert(bit_at(input, pos + 0) == bit_value(bits[0]));
    }
}

/// The `n` low bits of `v` spell `v` back when `v` is below `2^n`.
pub proof fn lemma_lsb_bits_number(v: int, n: nat)
    requires
        0 <= v < crate::bits::pow2_small(n),
    ensures
        lsb_number(lsb_bits(v, n)) == v,
        lsb_bits(v, n).len() == n,
    decreases n,
{
    if n == 0 {
        assert(crate::bits::pow2_small(0) == 1);
    } else {
        assert(crate::bits::pow2_small(n) == 2 * crate::bits::pow2_small((n - 1) as nat));
        lemma_lsb_bits_number(v / 2, (n - 1) as nat);
        let s = lsb_bits(v, n);
        assert(s == seq![v % 2 == 1] + lsb_bits(v / 2, (n - 1) as nat));
        assert(s.drop_first() =~= lsb_bits(v / 2, (n - 1) as nat));
    }
}

/// `msb_bits(v, n)` has `n` bits.
pub proof fn lemma_msb_bits_len(v: int, n: nat)
    ensures
        msb_bits(v, n).len() == n,
    decreases n,
{
    if n > 0 {
        lemma_msb_bits_len(v / 2, (n - 1) as nat);
    }
}

/// The bits from `pos` on are `bits`.
pub open spec fn bits_at(input: Seq<u8>, pos: int, bits: Seq<bool>) -> bool {
    &&& 0 <= pos
    &&& pos + bits.len() <= total_bits(input)
    &&& forall|k: int| 0 <= k < bits.len() ==> #[trigger] bit_at(input, pos + k) == bit_value(bits[k])
}

/// Bits at a position split into the bits of their two parts.
pub proof fn lemma_bits_at_split(input: Seq<u8>, pos: int, a: Seq<bool>, b: Seq<bool>)
    requires
        bits_at(input, pos, a + b),
    ensures
        bits_at(input, pos, a),
        bits_at(input, pos + a.len(), b),
{
    assert forall|k: int| 0 <= k < a.len() implies #[trigger] bit_at(input, pos + k) == bit_value(
        a[k],
    ) by {
        assert(bit_at(input, pos + k) == bit_value((a + b)[k]));
    }
    assert forall|k: int| 0 <= k < b.len() implies #[trigger] bit_at(input, (pos + a.len()) + k)
        == bit_value(b[k]) by {
        assert(bit_at(input, pos + (a.len() + k)) == bit_value((a + b)[a.len() + k]));
        assert(pos + (a.len() + k) == (pos + a.len()) + k);
    }
}

/// Builds a byte buffer bit by bit.
pub struct BitWriter {
    /// The completed bytes.
    bytes: Vec<u8>,
    /// The byte being filled.
    cur: u8,
    /// How many bits of `cur` are filled.
    nbits: u8,
    /// Every bit written so far.
    written: Ghost<Seq<bool>>,
}

/// Bit `j` of `x`, as 0 or 1.
pub open spec fn bit_of(x: u8, j: u8) -> int {
    ((x >> j) & 1u8) as int
}

/// The bits of a byte below `2^n` from `n` up are clear.
proof fn lemma_high_bit_clear(cur: u8, n: u8, j: u8)
    requires
        n < 8,
        n <= j < 8,
        cur < (1u8 << n),
    ensures
        bit_of(cur, j) == 0,
{
    assert((cur >> j) & 1u8 == 0) by (bit_vector)
        requires
            n < 8,
            n <= j < 8,
            cur < (1u8 << n),
    ;
}

/// Setting bit `n` of a byte whose bits from `n` up are clear.
proof fn lemma_set_bit(cur: u8, n: u8, b: u8)
    requires
        n < 8,
        b <= 1,
        cur < (1u8 << n),
    ensures
        forall|j: u8| j < n ==> #[trigger] bit_of(cur | (b << n), j) == bit_of(cur, j),
        bit_of(cur | (b << n), n) == b,
        n < 7 ==> (cur | (b << n)) < (1u8 << ((n + 1) as u8)),
{
    assert(forall|j: u8|
        j < n ==> #[trigger] ((cur | (b << n)) >> j) & 1u8 == (cur >> j) & 1u8) by (bit_vector)
        requires
            n < 8,
            b <= 1,
            cur < (1u8 << n),
    ;
    assert(((cur | (b << n)) >> n) & 1u8 == b) by (bit_vector)
        requires
            n < 8,
            b <= 1,
            cur < (1u8 << n),
    ;
    assert(n < 7 ==> (cur | (b << n)) < (1u8 << ((n + 1) as u8))) by (bit_vector)
        requires
            n < 8,
            b <= 1,
            cur < (1u8 << n),
    ;
}

impl BitWriter {
    /// The bits written so far.
    pub closed spec fn written(&self) -> Seq<bool> {
        self.written@
    }

    /// The buffer holds exactly the bits written.
    pub closed spec fn wf(&self) -> bool {
        &&& self.nbits < 8
        &&& self.written@.len() == 8 * self.bytes@.len() + self.nbits
        &&& forall|i: int|
            0 <= i < 8 * self.bytes@.len() ==> #[trigger] bit_at(self.bytes@, i) == bit_value(
                self.written@[i],
            )
        &&& forall|j: u8|
            j < self.nbits ==> #[trigger] bit_of(self.cur, j) == bit_value(
                self.written@[8 * self.bytes@.len() + j],
            )
        &&& self.cur < (1u8 << self.nbits)
    }

    /// An empty buffer.
    pub fn new() -> (r: BitWriter)
        ensures
            r.wf(),
            r.written() == Seq::<bool>::empty(),
    {
        let r = BitWriter { bytes: Vec::new(), cur: 0, nbits: 0, written: Ghost(Seq::empty()) };
        assert(0u8 < (1u8 << 0u8)) by (bit_vector);
        r
    }

    /// Appends one bit.
    pub fn write_bit(&mut self, b: bool)
        requires
            old(self).wf(),
        ensures
            final(self).wf(),
            final(self).written() == old(self).written().push(b),
    {
        let v: u8 = if b {
            1
        } else {
            0
        };
        let n = self.nbits;
        proof {
            lemma_set_bit(self.cur, n, v);
        }
        let next = self.cur | (v << n);
        let ghost old_written = self.written@;
        let ghost new_written = old_written.push(b);
        let ghost len = self.bytes@.len();
        if n == 7 {
            self.bytes.push(next);
            self.cur = 0;
            self.nbits = 0;
            self.written = Ghost(new_written);
            assert forall|i: int| 0 <= i < 8 * self.bytes@.len() implies #[trigger] bit_at(
                self.bytes@,
                i,
            ) == bit_value(self.written@[i]) by {
                if i < 8 * len {
                    lemma_bit_at_concat(Seq::empty(), old(self).bytes@, seq![next], i);
                    assert(Seq::<u8>::empty() + old(self).bytes@ + seq![next] =~= self.bytes@);
                } else {
                    let j = i - 8 * len;
                    lemma_bit_at_concat(old(self).bytes@, seq![next], Seq::empty(), j);
                    assert(old(self).bytes@ + seq![next] + Seq::<u8>::empty() =~= self.bytes@);
                    lemma_bit_index(0, j);
                    assert(bit_at(seq![next], j) == bit_of(next, j as u8));
                }
            }
            assert(0u8 < (1u8 << 0u8)) by (bit_vector);
        } else {
            self.cur = next;
            self.nbits = n + 1;
            self.written = Ghost(new_written);
            assert forall|j: u8| j < self.nbits implies #[trigger] bit_of(self.cur, j) == bit_value(
                self.written@[8 * self.bytes@.len() + j],
            ) by {
                if j < n {
                    assert(bit_of(old(self).cur, j) == bit_value(old_written[8 * len + j]));
                }
            }
        }
    }

    /// Appends the `n` low bits of `v`, least significant first.
    pub fn write_lsb(&mut self, v: u32, n: u8)
        requires
            old(self).wf(),
        ensures
            final(self).wf(),
            final(self).written() == old(self).written() + lsb_bits(v as int, n as nat),
        decreases n,
    {
        if n > 0 {
            self.write_bit(v % 2 == 1);
            self.write_lsb(v / 2, n - 1);
            assert(old(self).written() + lsb_bits(v as int, n as nat) =~= old(self).written().push(
                v % 2 == 1,
            ) + lsb_bits((v / 2) as int, (n - 1) as nat));
        } else {
            assert(old(self).written() + lsb_bits(v as int, 0) =~= old(self).written());
        }
    }

    /// Appends the `n` low bits of `v`, most significant first.
    pub fn write_msb(&mut self, v: u32, n: u8)
        requires
            old(self).wf(),
        ensures
            final(self).wf(),
            final(self).written() == old(self).written() + msb_bits(v as int, n as nat),
        decreases n,
    {
        if n > 0 {
            self.write_msb(v / 2, n - 1);
            self.write_bit(v % 2 == 1);
            assert(old(self).written() + msb_bits(v as int, n as nat) =~= (old(self).written()
                + msb_bits((v / 2) as int, (n - 1) as nat)).push(v % 2 == 1));
        } else {
            assert(old(self).written() + msb_bits(v as int, 0) =~= old(self).written());
        }
    }

    /// The bytes, the last one padded with zero bits.
    pub fn finish(self) -> (r: Vec<u8>)
        requires
            self.wf(),
        ensures
            holds_bits(r@, self.written()),
            packs(r@, self.written()),
            r@ == packed(self.written()),
    {
        let mut bytes = self.bytes;
        if self.nbits > 0 {
            bytes.push(self.cur);
            let ghost len = self.bytes@.len();
            assert forall|i: int| 0 <= i < self.written@.len() implies #[trigger] bit_at(
                bytes@,
                i,
            ) == bit_value(self.written@[i]) by {
                if i < 8 * len {
                    lemma_bit_at_concat(Seq::empty(), self.bytes@, seq![self.cur], i);
                    assert(Seq::<u8>::empty() + self.bytes@ + seq![self.cur] =~= bytes@);
                } else {
                    let j = i - 8 * len;
                    lemma_bit_at_concat(self.bytes@, seq![self.cur], Seq::empty(), j);
                    assert(self.bytes@ + seq![self.cur] + Seq::<u8>::empty() =~= bytes@);
                    lemma_bit_index(0, j);
                    assert(bit_at(seq![self.cur], j) == bit_of(self.cur, j as u8));
                }
            }
            assert forall|i: int|
                self.written@.len() <= i < 8 * bytes@.len() implies #[trigger] bit_at(bytes@, i)
                == 0 by {
                let j = i - 8 * len;
                lemma_bit_at_concat(self.bytes@, seq![self.cur], Seq::empty(), j);
                assert(self.bytes@ + seq![self.cur] + Seq::<u8>::empty() =~= bytes@);
                lemma_bit_index(0, j);
                assert(bit_at(seq![self.cur], j) == bit_of(self.cur, j as u8));
                lemma_high_bit_clear(self.cur, self.nbits, j as u8);
            }
        }
        proof {
            lemma_packs_unique(bytes@, self.written@);
        }
        bytes
    }
}

} // verus!
