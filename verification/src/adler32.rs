//! The Adler-32 checksum of RFC 1950, as a rolling state.
//!
//! A state packs two sums modulo 65521 into one `u32`: the low half holds the
//! running byte sum `a` and the high half the running sum of those sums `b`.
use vstd::prelude::*;
use vstd::arithmetic::div_mod::lemma_add_mod_noop;

verus! {

/// The Adler-32 modulus: the largest prime below 2^16.
pub const ADLER_MOD: u32 = 65521;

/// Bytes folded into the two sums between two reductions; with both sums
/// reduced beforehand, neither can leave a `u32` within this many bytes.
pub const CHUNK_LEN: usize = 5550;

/// The low half of a packed state: the running byte sum.
pub open spec fn low_half(state: u32) -> int {
    state as int % 65536
}

/// The high half of a packed state: the running sum of byte sums.
pub open spec fn high_half(state: u32) -> int {
    state as int / 65536
}

/// Packs the two sums into one word, `b` in the high half.
pub open spec fn pack(a: int, b: int) -> u32 {
    (b * 65536 + a) as u32
}

/// Both halves of `state` are already reduced modulo 65521.
pub open spec fn is_reduced(state: u32) -> bool {
    low_half(state) < ADLER_MOD && high_half(state) < ADLER_MOD
}

/// The two sums after feeding `data` from `(a, b)`, before any reduction:
/// each byte is added to `a`, then the new `a` is added to `b`.
pub open spec fn running_sums(a: int, b: int, data: Seq<u8>) -> (int, int)
    decreases data.len(),
{
    if data.len() == 0 {
        (a, b)
    } else {
        running_sums(a + data[0], b + a + data[0], data.drop_first())
    }
}

/// The state reached by feeding `data` to the checksum state `state`.
pub open spec fn adler32_update(state: u32, data: Seq<u8>) -> u32 {
    let (a, b) = running_sums(low_half(state), high_half(state), data);
    pack(a % (ADLER_MOD as int), b % (ADLER_MOD as int))
}

/// The Adler-32 checksum of `data`.
pub open spec fn adler32(data: Seq<u8>) -> u32 {
    adler32_update(1, data)
}

/// The plain sum of the bytes of `data`.
pub open spec fn byte_sum(data: Seq<u8>) -> int
    decreases data.len(),
{
    if data.len() == 0 {
        0
    } else {
        data[0] + byte_sum(data.drop_first())
    }
}

/// `n*D1 + (n-1)*D2 + ... + 1*Dn` for the `n` bytes `D1 .. Dn` of `data`.
pub open spec fn weighted_byte_sum(data: Seq<u8>) -> int
    decreases data.len(),
{
    if data.len() == 0 {
        0
    } else {
        data.len() * data[0] + weighted_byte_sum(data.drop_first())
    }
}

/// Sums of numbers congruent modulo `m` are congruent.
proof fn lemma_congruent_add(x: int, y: int, u: int, v: int, m: int)
    requires
        m > 0,
        x % m == y % m,
        u % m == v % m,
    ensures
        (x + u) % m == (y + v) % m,
{
    lemma_add_mod_noop(x, u, m);
    lemma_add_mod_noop(y, v, m);
}

/// Feeding `x` then `y` gives the unreduced sums of feeding `x + y`.
pub proof fn lemma_running_sums_concat(a: int, b: int, x: Seq<u8>, y: Seq<u8>)
    ensures
        running_sums(a, b, x + y) == running_sums(
            running_sums(a, b, x).0,
            running_sums(a, b, x).1,
            y,
        ),
    decreases x.len(),
{
    if x.len() > 0 {
        assert((x + y).drop_first() =~= x.drop_first() + y);
        lemma_running_sums_concat(a + x[0], b + a + x[0], x.drop_first(), y);
    } else {
        assert(x + y =~= y);
    }
}

/// Starting sums that agree modulo `m` give final sums that agree modulo `m`.
pub proof fn lemma_running_sums_congruent(a: int, b: int, a2: int, b2: int, m: int, data: Seq<u8>)
    requires
        m > 0,
        a % m == a2 % m,
        b % m == b2 % m,
    ensures
        running_sums(a, b, data).0 % m == running_sums(a2, b2, data).0 % m,
        running_sums(a, b, data).1 % m == running_sums(a2, b2, data).1 % m,
    decreases data.len(),
{
    if data.len() > 0 {
        let d = data[0] as int;
        lemma_congruent_add(a, a2, d, d, m);
        lemma_congruent_add(b, b2, a + d, a2 + d, m);
        lemma_running_sums_congruent(a + d, b + a + d, a2 + d, b2 + a2 + d, m, data.drop_first());
    }
}

/// The unreduced sums in closed form.
pub proof fn lemma_running_sums_closed_form(a: int, b: int, data: Seq<u8>)
    ensures
        running_sums(a, b, data) == (
            a + byte_sum(data),
            b + data.len() * a + weighted_byte_sum(data),
        ),
    decreases data.len(),
{
    if data.len() > 0 {
        let d = data[0] as int;
        let n = data.len() as int;
        lemma_running_sums_closed_form(a + d, b + a + d, data.drop_first());
        assert((b + a + d) + (n - 1) * (a + d) == b + n * a + n * d) by (nonlinear_arith);
    }
}

/// Packing two reduced sums and reading them back gives them again.
pub proof fn lemma_pack_halves(a: int, b: int)
    requires
        0 <= a < ADLER_MOD,
        0 <= b < ADLER_MOD,
    ensures
        low_half(pack(a, b)) == a,
        high_half(pack(a, b)) == b,
        is_reduced(pack(a, b)),
{
    assert(0 <= b * 65536 + a < 0x1_0000_0000) by (nonlinear_arith)
        requires
            0 <= a < 65521,
            0 <= b < 65521,
    ;
    let w = b * 65536 + a;
    assert(pack(a, b) as int == w);
    assert(w % 65536 == a && w / 65536 == b) by (nonlinear_arith)
        requires
            w == b * 65536 + a,
            0 <= a < 65536,
    ;
}

/// Every state reached by an update has both halves reduced.
pub proof fn lemma_update_is_reduced(state: u32, data: Seq<u8>)
    ensures
        is_reduced(adler32_update(state, data)),
        low_half(adler32_update(state, data)) == running_sums(
            low_half(state),
            high_half(state),
            data,
        ).0 % (ADLER_MOD as int),
        high_half(adler32_update(state, data)) == running_sums(
            low_half(state),
            high_half(state),
            data,
        ).1 % (ADLER_MOD as int),
{
    let (a, b) = running_sums(low_half(state), high_half(state), data);
    lemma_pack_halves(a % (ADLER_MOD as int), b % (ADLER_MOD as int));
}

/// Feeding no bytes leaves a reduced state unchanged.
pub proof fn lemma_update_empty(state: u32)
    requires
        is_reduced(state),
    ensures
        adler32_update(state, Seq::<u8>::empty()) == state,
{
    let a = low_half(state);
    let b = high_half(state);
    assert(running_sums(a, b, Seq::<u8>::empty()) == (a, b));
    lemma_pack_halves(a, b);
    assert(pack(a, b) as int == b * 65536 + a);
    assert(state as int == b * 65536 + a);
}

/// Feeding `x` and then `y` gives the state that feeding `x + y` at once
/// gives: the checksum does not depend on how the input is split.
pub proof fn lemma_update_concat(state: u32, x: Seq<u8>, y: Seq<u8>)
    requires
        is_reduced(state),
    ensures
        adler32_update(adler32_update(state, x), y) == adler32_update(state, x + y),
{
    let m = ADLER_MOD as int;
    let (a, b) = running_sums(low_half(state), high_half(state), x);
    let mid = adler32_update(state, x);
    lemma_update_is_reduced(state, x);
    assert(low_half(mid) == a % m && high_half(mid) == b % m);
    assert((a % m) % m == a % m && (b % m) % m == b % m) by {
        vstd::arithmetic::div_mod::lemma_mod_twice(a, m);
        vstd::arithmetic::div_mod::lemma_mod_twice(b, m);
    }
    lemma_running_sums_congruent(a % m, b % m, a, b, m, y);
    lemma_running_sums_concat(low_half(state), high_half(state), x, y);
}

/// The checksum of `x + y` is the checksum of `x` updated with `y`.
pub proof fn lemma_adler32_concat(x: Seq<u8>, y: Seq<u8>)
    ensures
        adler32(x + y) == adler32_update(adler32(x), y),
{
    assert(is_reduced(1u32));
    lemma_update_concat(1, x, y);
}

/// The checksum as RFC 1950 writes it: `A = 1 + D1 + ... + Dn` and
/// `B = n*D1 + (n-1)*D2 + ... + Dn + n`, both modulo 65521, with `B` in the
/// high sixteen bits.
pub proof fn lemma_adler32_closed_form(data: Seq<u8>)
    ensures
        adler32(data) == pack(
            (1 + byte_sum(data)) % (ADLER_MOD as int),
            (data.len() + weighted_byte_sum(data)) % (ADLER_MOD as int),
        ),
        adler32(data) as int == ((data.len() + weighted_byte_sum(data)) % (ADLER_MOD as int))
            * 65536 + (1 + byte_sum(data)) % (ADLER_MOD as int),
{
    lemma_running_sums_closed_form(1, 0, data);
    assert(low_half(1) == 1 && high_half(1) == 0);
    lemma_pack_halves(
        (1 + byte_sum(data)) % (ADLER_MOD as int),
        (data.len() + weighted_byte_sum(data)) % (ADLER_MOD as int),
    );
}

/// The checksum of no bytes is 1.
pub proof fn lemma_adler32_empty()
    ensures
        adler32(Seq::<u8>::empty()) == 1,
{
    assert(is_reduced(1u32));
    lemma_update_empty(1);
}

/// The bound on the second sum after one more byte of a chunk.
proof fn lemma_chunk_step_bound(k: int)
    requires
        0 <= k < CHUNK_LEN,
    ensures
        (k + 1) * (k + 2) == k * (k + 1) + 2 * (k + 1),
        255 * ((k + 1) * (k + 2)) <= 255 * (5550 * 5551),
{
    assert((k + 1) * (k + 2) == k * (k + 1) + 2 * (k + 1)) by (nonlinear_arith);
    assert((k + 1) * (k + 2) <= 5550 * 5551) by (nonlinear_arith)
        requires
            0 <= k < 5550,
    ;
}

/// Rolling Adler-32 checksum.
#[derive(Copy, Clone)]
pub struct Adler32(u32);

impl View for Adler32 {
    type V = u32;

    /// The packed checksum state.
    closed spec fn view(&self) -> u32 {
        self.0
    }
}

impl Adler32 {
    /// Both halves of the state stay reduced modulo 65521.
    #[verifier::type_invariant]
    spec fn halves_reduced(self) -> bool {
        is_reduced(self.0)
    }

    /// Creates a new checksum initialized to the default value.
    pub fn new() -> (r: Self)
        ensures
            r@ == 1,
    {
        Adler32(1)
    }

    /// Creates a checksum from a buffer.
    pub fn from_buf(buf: &[u8]) -> (r: Self)
        ensures
            r@ == adler32(buf@),
    {
        let mut checksum = Self::new();
        checksum.update(buf);
        checksum
    }

    /// Updates the checksum with bytes provided by the specified buffer.
    pub fn update(&mut self, buf: &[u8])
        ensures
            final(self)@ == adler32_update(old(self)@, buf@),
    {
        proof {
            use_type_invariant(&*self);
        }
        let state = self.0;
        let mut s1: u32 = state & 0xFFFF;
        let mut s2: u32 = (state >> 16) & 0xFFFF;
        assert(state & 0xFFFF == state % 65536 && (state >> 16) & 0xFFFF == state / 65536)
            by (bit_vector);
        let ghost a0 = low_half(state);
        let ghost b0 = high_half(state);
        let ghost m = ADLER_MOD as int;
        assert(buf@.take(0) =~= Seq::<u8>::empty());
        let len = buf.len();
        let mut i: usize = 0;
        while i < len
            invariant
                i <= len,
                len == buf@.len(),
                m == ADLER_MOD as int,
                s1 < ADLER_MOD,
                s2 < ADLER_MOD,
                s1 as int == running_sums(a0, b0, buf@.take(i as int)).0 % m,
                s2 as int == running_sums(a0, b0, buf@.take(i as int)).1 % m,
            decreases len - i,
        {
            let end: usize = if len - i > CHUNK_LEN { i + CHUNK_LEN } else { len };
            let mut j: usize = i;
            while j < end
                invariant
                    i <= j <= end <= len,
                    end - i <= CHUNK_LEN,
                    len == buf@.len(),
                    m == ADLER_MOD as int,
                    s1 as int <= 65520 + 255 * (j - i),
                    2 * (s2 as int) <= 131040 * (j - i + 1) + 255 * ((j - i) * (j - i + 1)),
                    s1 as int % m == running_sums(a0, b0, buf@.take(j as int)).0 % m,
                    s2 as int % m == running_sums(a0, b0, buf@.take(j as int)).1 % m,
                decreases end - j,
            {
                let byte = buf[j];
                proof {
                    let k = j - i;
                    lemma_chunk_step_bound(k);
                    let (a, b) = running_sums(a0, b0, buf@.take(j as int));
                    assert(buf@.take(j + 1) =~= buf@.take(j as int) + seq![byte]);
                    lemma_running_sums_concat(a0, b0, buf@.take(j as int), seq![byte]);
                    assert(seq![byte].drop_first() =~= Seq::<u8>::empty());
                    assert(seq![byte][0] == byte);
                    assert(running_sums(a + byte, b + a + byte, Seq::<u8>::empty()) == (
                        a + byte,
                        b + a + byte,
                    ));
                    assert(running_sums(a, b, seq![byte]) == (a + byte, b + a + byte));
                    lemma_congruent_add(s1 as int, a, byte as int, byte as int, m);
                    lemma_congruent_add(s2 as int, b, s1 + byte, a + byte, m);
                }
                s1 = s1 + byte as u32;
                s2 = s2 + s1;
                j = j + 1;
            }
            proof {
                vstd::arithmetic::div_mod::lemma_mod_twice(
                    running_sums(a0, b0, buf@.take(j as int)).0, m);
                vstd::arithmetic::div_mod::lemma_mod_twice(
                    running_sums(a0, b0, buf@.take(j as int)).1, m);
            }
            s1 = s1 % ADLER_MOD;
            s2 = s2 % ADLER_MOD;
            i = end;
        }
        assert(buf@.take(len as int) =~= buf@);
        proof {
            lemma_update_is_reduced(state, buf@);
            lemma_pack_halves(s1 as int, s2 as int);
        }
        assert((s2 << 16) | s1 == s2 * 65536 + s1) by (bit_vector)
            requires
                s1 < 65536,
                s2 < 65536,
        ;
        self.0 = (s2 << 16) | s1;
    }

    /// Returns the checksum.
    pub fn finish(self) -> (r: u32)
        ensures
            r == self@,
            is_reduced(r),
    {
        proof {
            use_type_invariant(&self);
        }
        self.0
    }
}

impl Default for Adler32 {
    /// The checksum of no bytes, as `new` gives it.
    fn default() -> (r: Self)
        ensures
            r@ == 1,
    {
        Self::new()
    }
}

} // verus!
