//! LZ77 tokens: literal bytes and back-references into the bytes before them.
use vstd::prelude::*;
use crate::bits::pow2_small;
use crate::inflate::{copy_back, DIST_BASE, DIST_EXTRA, LENGTH_BASE, LENGTH_EXTRA};

verus! {

/// One step of LZ77 output: a literal byte, or a match given by its length
/// slot and distance slot (the DEFLATE symbols) with their extra bits.
#[derive(Copy, Clone)]
pub enum Token {
    Literal(u8),
    Match { len_slot: u8, len_extra: u16, dist_slot: u8, dist_extra: u16 },
}

/// The slots and extra bits of a match are in range.
pub open spec fn token_fits(t: Token) -> bool {
    match t {
        Token::Literal(_) => true,
        Token::Match { len_slot, len_extra, dist_slot, dist_extra } => {
            &&& len_slot < 29
            &&& len_extra < pow2_small(LENGTH_EXTRA@[len_slot as int] as nat)
            &&& dist_slot < 30
            &&& dist_extra < pow2_small(DIST_EXTRA@[dist_slot as int] as nat)
        },
    }
}

/// The length of a match.
pub open spec fn match_len(t: Token) -> int {
    match t {
        Token::Literal(_) => 1,
        Token::Match { len_slot, len_extra, .. } => LENGTH_BASE@[len_slot as int] + len_extra,
    }
}

/// The distance of a match.
pub open spec fn match_dist(t: Token) -> int {
    match t {
        Token::Literal(_) => 0,
        Token::Match { dist_slot, dist_extra, .. } => DIST_BASE@[dist_slot as int] + dist_extra,
    }
}

/// The bytes that `tokens` produce after `out`, or `None` when a match is
/// out of range or reaches back before the start.
pub open spec fn replay(out: Seq<u8>, tokens: Seq<Token>) -> Option<Seq<u8>>
    decreases tokens.len(),
{
    if tokens.len() == 0 {
        Some(out)
    } else {
        match tokens[0] {
            Token::Literal(b) => replay(out.push(b), tokens.drop_first()),
            Token::Match { .. } => {
                if !token_fits(tokens[0]) || match_dist(tokens[0]) > out.len() {
                    None
                } else {
                    replay(
                        copy_back(out, match_dist(tokens[0]), match_len(tokens[0]) as nat),
                        tokens.drop_first(),
                    )
                }
            },
        }
    }
}

/// What one token does to the bytes before it, or `None` when it cannot.
pub open spec fn replay_one(out: Seq<u8>, t: Token) -> Option<Seq<u8>> {
    match t {
        Token::Literal(b) => Some(out.push(b)),
        Token::Match { .. } => {
            if !token_fits(t) || match_dist(t) > out.len() {
                None
            } else {
                Some(copy_back(out, match_dist(t), match_len(t) as nat))
            }
        },
    }
}

/// Replaying one more token goes on from where the others left off.
pub proof fn lemma_replay_push(out: Seq<u8>, tokens: Seq<Token>, t: Token)
    requires
        replay(out, tokens) is Some,
    ensures
        replay(out, tokens.push(t)) == replay_one(replay(out, tokens)->0, t),
    decreases tokens.len(),
{
    if tokens.len() == 0 {
        let one = tokens.push(t);
        assert(one.drop_first() =~= Seq::<Token>::empty());
        assert(one[0] == t);
        assert(replay(out, tokens) == Some(out));
        match t {
            Token::Literal(b) => {
                assert(replay(out.push(b), Seq::<Token>::empty()) == Some(out.push(b)));
            },
            Token::Match { .. } => {
                let c = copy_back(out, match_dist(t), match_len(t) as nat);
                assert(replay(c, Seq::<Token>::empty()) == Some(c));
            },
        }
    } else {
        assert(tokens.push(t).drop_first() =~= tokens.drop_first().push(t));
        match tokens[0] {
            Token::Literal(b) => {
                lemma_replay_push(out.push(b), tokens.drop_first(), t);
            },
            Token::Match { .. } => {
                lemma_replay_push(
                    copy_back(out, match_dist(tokens[0]), match_len(tokens[0]) as nat),
                    tokens.drop_first(),
                    t,
                );
            },
        }
    }
}

/// Copying `len` bytes from `dist` back rebuilds the data when the data
/// repeats itself at that distance.
pub proof fn lemma_copy_back_repeats(data: Seq<u8>, i: int, dist: int, len: nat)
    requires
        1 <= dist <= i,
        i + len <= data.len(),
        forall|k: int| 0 <= k < len ==> #[trigger] data[i + k] == data[i + k - dist],
    ensures
        copy_back(data.take(i), dist, len) =~= data.take(i + len),
    decreases len,
{
    if len > 0 {
        assert(data.take(i).push(data.take(i)[data.take(i).len() - dist]) =~= data.take(i + 1)) by {
            assert(data[i + 0] == data[i + 0 - dist]);
        }
        assert forall|k: int| 0 <= k < len - 1 implies #[trigger] data[(i + 1) + k] == data[(i + 1)
            + k - dist] by {
            assert(data[i + (k + 1)] == data[i + (k + 1) - dist]);
        }
        lemma_copy_back_repeats(data, i + 1, dist, (len - 1) as nat);
    }
}

/// Consecutive length slots leave no gap: each slot's extra bits reach the
/// next slot's base.
pub proof fn lemma_length_slots_cover()
    ensures
        forall|s: int|
            0 <= s < 28 ==> LENGTH_BASE@[s + 1] <= LENGTH_BASE@[s] + pow2_small(
                LENGTH_EXTRA@[s] as nat,
            ),
        LENGTH_BASE@[0] == 3,
        LENGTH_BASE@[28] == 258,
        LENGTH_EXTRA@[28] == 0,
{
    reveal_with_fuel(pow2_small, 7);
}

/// Consecutive distance slots leave no gap, and the last reaches 32768.
pub proof fn lemma_dist_slots_cover()
    ensures
        forall|s: int|
            0 <= s < 29 ==> DIST_BASE@[s + 1] == DIST_BASE@[s] + pow2_small(
                DIST_EXTRA@[s] as nat,
            ),
        DIST_BASE@[0] == 1,
        DIST_BASE@[29] + pow2_small(DIST_EXTRA@[29] as nat) == 32769,
{
    reveal_with_fuel(pow2_small, 15);
}

/// Tokens that replay have their slots and extra bits in range.
pub proof fn lemma_replay_fits(out: Seq<u8>, tokens: Seq<Token>)
    requires
        replay(out, tokens) is Some,
    ensures
        forall|k: int| 0 <= k < tokens.len() ==> token_fits(#[trigger] tokens[k]),
    decreases tokens.len(),
{
    if tokens.len() > 0 {
        let rest = tokens.drop_first();
        match tokens[0] {
            Token::Literal(b) => {
                lemma_replay_fits(out.push(b), rest);
            },
            Token::Match { .. } => {
                lemma_replay_fits(
                    copy_back(out, match_dist(tokens[0]), match_len(tokens[0]) as nat),
                    rest,
                );
            },
        }
        assert forall|k: int| 0 <= k < tokens.len() implies token_fits(#[trigger] tokens[k]) by {
            if k > 0 {
                assert(tokens[k] == rest[k - 1]);
            }
        }
    }
}

/// The longest match in a DEFLATE stream.
pub const MAX_MATCH: usize = 258;

/// The farthest a match may reach back.
pub const MAX_DISTANCE: usize = 32768;

/// Entries in the table of recent positions.
pub const HASH_SIZE: usize = 4096;

/// The length slot of a match length, and the extra value on its base.
/// The last slot at or below `s` whose base is at most `x`.
pub open spec fn slot_below(table: Seq<u16>, s: int, x: int) -> int
    decreases s,
{
    if s <= 0 || table[s] <= x {
        s
    } else {
        slot_below(table, s - 1, x)
    }
}

/// The match token for a length and a distance: each in the last slot
/// whose base it reaches, with the rest as extra bits.
pub open spec fn match_token(len: int, dist: int) -> Token {
    let ls = slot_below(LENGTH_BASE@, 28, len);
    let ds = slot_below(DIST_BASE@, 29, dist);
    Token::Match {
        len_slot: ls as u8,
        len_extra: (len - LENGTH_BASE@[ls]) as u16,
        dist_slot: ds as u8,
        dist_extra: (dist - DIST_BASE@[ds]) as u16,
    }
}

fn length_slot(len: usize) -> (r: (u8, u16))
    requires
        3 <= len <= MAX_MATCH,
    ensures
        r.0 < 29,
        LENGTH_BASE@[r.0 as int] + r.1 == len,
        r.1 < pow2_small(LENGTH_EXTRA@[r.0 as int] as nat),
        r.0 == slot_below(LENGTH_BASE@, 28, len as int),
{
    proof {
        lemma_length_slots_cover();
        reveal_with_fuel(pow2_small, 1);
    }
    let mut s: usize = 28;
    while LENGTH_BASE[s] as usize > len
        invariant
            s <= 28,
            3 <= len <= MAX_MATCH,
            forall|t: int| s < t <= 28 ==> LENGTH_BASE@[t] > len,
            slot_below(LENGTH_BASE@, 28, len as int) == slot_below(LENGTH_BASE@, s as int, len as int),
        decreases s,
    {
        s = s - 1;
    }
    if s < 28 {
        assert(LENGTH_BASE@[s + 1] > len);
    }
    (s as u8, (len - LENGTH_BASE[s] as usize) as u16)
}

/// The distance slot of a match distance, and the extra value on its base.
fn dist_slot(dist: usize) -> (r: (u8, u16))
    requires
        1 <= dist <= MAX_DISTANCE,
    ensures
        r.0 < 30,
        DIST_BASE@[r.0 as int] + r.1 == dist,
        r.1 < pow2_small(DIST_EXTRA@[r.0 as int] as nat),
        r.0 == slot_below(DIST_BASE@, 29, dist as int),
{
    proof {
        lemma_dist_slots_cover();
    }
    let mut s: usize = 29;
    while DIST_BASE[s] as usize > dist
        invariant
            s <= 29,
            1 <= dist <= MAX_DISTANCE,
            forall|t: int| s < t <= 29 ==> DIST_BASE@[t] > dist,
            slot_below(DIST_BASE@, 29, dist as int) == slot_below(DIST_BASE@, s as int, dist as int),
        decreases s,
    {
        s = s - 1;
    }
    if s < 29 {
        assert(DIST_BASE@[s + 1] > dist);
    }
    (s as u8, (dist - DIST_BASE[s] as usize) as u16)
}

/// How many bytes from `i` on repeat those `d` bytes earlier, counting at
/// most `cap`.
pub open spec fn common_len(data: Seq<u8>, i: int, d: int, cap: nat) -> nat
    decreases cap,
{
    if cap == 0 || i < 0 || i >= data.len() || data[i] != data[i - d] {
        0
    } else {
        1 + common_len(data, i + 1, d, (cap - 1) as nat)
    }
}

/// A common run never exceeds its cap.
proof fn lemma_common_len_bound(data: Seq<u8>, i: int, d: int, cap: nat)
    ensures
        common_len(data, i, d, cap) <= cap,
    decreases cap,
{
    if cap > 0 {
        lemma_common_len_bound(data, i + 1, d, (cap - 1) as nat);
    }
}

/// A run of `l` repeated bytes is the start of the common run.
pub proof fn lemma_common_len_split(data: Seq<u8>, i: int, d: int, cap: nat, l: nat)
    requires
        0 <= i,
        l <= cap,
        i + l <= data.len(),
        forall|k: int| 0 <= k < l ==> #[trigger] data[i + k] == data[i + k - d],
    ensures
        common_len(data, i, d, cap) == l + common_len(data, i + l, d, (cap - l) as nat),
    decreases l,
{
    if l > 0 {
        assert(data[i + 0] == data[i + 0 - d]);
        assert forall|k: int| 0 <= k < l - 1 implies #[trigger] data[i + 1 + k] == data[i + 1 + k
            - d] by {
            assert(data[i + (k + 1)] == data[i + (k + 1) - d]);
        }
        lemma_common_len_split(data, i + 1, d, (cap - 1) as nat, (l - 1) as nat);
    }
}

/// The earlier positions (each one before `i`, and within reach) that the
/// hash chain lists from entry `cand` on, visiting at most `steps` of them;
/// the chain stops where its link does not lead further back.
pub open spec fn chain_from(i: int, prev: Seq<usize>, cand: int, steps: nat) -> Seq<int>
    decreases steps,
{
    if steps == 0 || cand <= 0 || cand - 1 >= i || i - (cand - 1) > MAX_DISTANCE {
        Seq::empty()
    } else {
        let c = cand - 1;
        let next = prev[c % (MAX_DISTANCE as int)] as int;
        if next == 0 || next - 1 >= c {
            seq![c]
        } else {
            seq![c] + chain_from(i, prev, next, (steps - 1) as nat)
        }
    }
}

/// The first longest match of at least three bytes at `i` with one of the
/// first `k` positions `cands`, as `(length, distance)`; `(0, 0)` for none.
pub open spec fn best_over(data: Seq<u8>, i: int, cands: Seq<int>, k: nat) -> (int, int)
    decreases k,
{
    if k == 0 {
        (0, 0)
    } else {
        let (bl, bd) = best_over(data, i, cands, (k - 1) as nat);
        let c = cands[k - 1];
        let l = common_len(data, i, i - c, MAX_MATCH as nat) as int;
        if l >= 3 && l > bl {
            (l, i - c)
        } else {
            (bl, bd)
        }
    }
}

/// Once the longest possible match is found, later positions change nothing.
proof fn lemma_best_over_stays(data: Seq<u8>, i: int, cands: Seq<int>, k: nat, j: nat)
    requires
        k <= j,
        best_over(data, i, cands, k).0 == MAX_MATCH,
    ensures
        best_over(data, i, cands, j) == best_over(data, i, cands, k),
    decreases j,
{
    if j > k {
        lemma_best_over_stays(data, i, cands, k, (j - 1) as nat);
        lemma_common_len_bound(data, i, i - cands[j - 1], MAX_MATCH as nat);
    }
}

/// `(len, dist)` is the first longest match of at least three bytes at `i`
/// with one of the positions `cands`, or `(0, 0)` when none reaches three.
spec fn first_longest(data: Seq<u8>, i: int, cands: Seq<int>, len: int, dist: int) -> bool {
    if len == 0 {
        dist == 0 && forall|j: int|
            0 <= j < cands.len() ==> #[trigger] common_len(
                data,
                i,
                i - cands[j],
                MAX_MATCH as nat,
            ) < 3
    } else {
        len >= 3 && exists|k: int|
            0 <= k < cands.len() && len == #[trigger] common_len(
                data,
                i,
                i - cands[k],
                MAX_MATCH as nat,
            ) && dist == i - cands[k] && (forall|j: int|
                0 <= j < k ==> #[trigger] common_len(data, i, i - cands[j], MAX_MATCH as nat)
                    < len) && (forall|j: int|
                0 <= j < cands.len() ==> #[trigger] common_len(
                    data,
                    i,
                    i - cands[j],
                    MAX_MATCH as nat,
                ) <= len)
    }
}

/// How far the bytes from `i` on repeat those `dist` bytes earlier, up to
/// the longest match.
fn match_length(data: &[u8], i: usize, dist: usize) -> (l: usize)
    requires
        1 <= dist <= i < data@.len(),
    ensures
        l <= MAX_MATCH,
        i + l <= data@.len(),
        forall|k: int| 0 <= k < l ==> #[trigger] data@[i + k] == data@[i + k - dist],
        l == MAX_MATCH || i + l == data@.len() || data@[i + l] != data@[i + l - dist],
        l == common_len(data@, i as int, dist as int, MAX_MATCH as nat),
{
    let n = data.len();
    let mut l: usize = 0;
    while l < MAX_MATCH && i + l < n && data[i + l] == data[i + l - dist]
        invariant
            1 <= dist <= i < n == data@.len(),
            l <= MAX_MATCH,
            i + l <= n,
            forall|k: int| 0 <= k < l ==> #[trigger] data@[i + k] == data@[i + k - dist],
        decreases MAX_MATCH - l,
    {
        l = l + 1;
    }
    proof {
        lemma_common_len_split(data@, i as int, dist as int, MAX_MATCH as nat, l as nat);
    }
    l
}

/// The hash of the three bytes at `i`: a bucket of `HASH_SIZE`.
pub open spec fn hash_at(data: Seq<u8>, i: int) -> int {
    (data[i] * 1089 + data[i + 1] * 33 + data[i + 2]) % (HASH_SIZE as int)
}

/// The hash of the three bytes at `i`.
fn hash3(data: &[u8], i: usize) -> (r: usize)
    requires
        i + 3 <= data@.len(),
    ensures
        r < HASH_SIZE,
        r == hash_at(data@, i as int),
{
    (data[i] as usize * 1089 + data[i + 1] as usize * 33 + data[i + 2] as usize) % HASH_SIZE
}

/// Records position `i` as the latest with its three bytes ahead.
fn insert_position(data: &[u8], i: usize, head: &mut Vec<usize>, prev: &mut Vec<usize>)
    requires
        i + 3 <= data@.len(),
        old(head)@.len() == HASH_SIZE,
        old(prev)@.len() == MAX_DISTANCE,
    ensures
        final(head)@ == old(head)@.update(hash_at(data@, i as int), (i + 1) as usize),
        final(prev)@ == old(prev)@.update(
            i as int % MAX_DISTANCE as int,
            old(head)@[hash_at(data@, i as int)],
        ),
{
    let len = data.len();
    assert(i < len);
    let h = hash3(data, i);
    prev.set(i % MAX_DISTANCE, head[h]);
    head.set(h, i + 1);
}

/// The longest match at `i` among up to `chain` earlier positions with the
/// same three bytes ahead (as `(length, distance)`, length 0 for none): the
/// positions that the hash chain of `i` lists, nearest first, and of equally
/// long matches the nearest.
fn best_match(data: &[u8], i: usize, head: &Vec<usize>, prev: &Vec<usize>, chain: usize) -> (r: (
    usize,
    usize,
))
    requires
        i + 3 <= data@.len(),
        head@.len() == HASH_SIZE,
        prev@.len() == MAX_DISTANCE,
    ensures
        r.0 == 0 || (3 <= r.0 <= MAX_MATCH && 1 <= r.1 <= i && r.1 <= MAX_DISTANCE && i + r.0
            <= data@.len() && forall|k: int|
            0 <= k < r.0 ==> #[trigger] data@[i + k] == data@[i + k - r.1]),
        first_longest(
            data@,
            i as int,
            chain_from(
                i as int,
                prev@,
                head@[hash_at(data@, i as int)] as int,
                chain as nat,
            ),
            r.0 as int,
            r.1 as int,
        ),
        (r.0 as int, r.1 as int) == best_over(
            data@,
            i as int,
            chain_from(i as int, prev@, head@[hash_at(data@, i as int)] as int, chain as nat),
            chain_from(
                i as int,
                prev@,
                head@[hash_at(data@, i as int)] as int,
                chain as nat,
            ).len(),
        ),
{
    let ghost cands = chain_from(
        i as int,
        prev@,
        head@[hash_at(data@, i as int)] as int,
        chain as nat,
    );
    let mut best_len: usize = 0;
    let mut best_dist: usize = 0;
    let mut cand = head[hash3(data, i)];
    let mut steps: usize = 0;
    let mut done = false;
    assert(cands.take(0) =~= Seq::<int>::empty());
    assert(cands.skip(0) =~= cands);
    while !done && steps < chain && cand > 0 && cand - 1 < i && i - (cand - 1) <= MAX_DISTANCE
        invariant
            i + 3 <= data@.len(),
            prev@.len() == MAX_DISTANCE,
            best_len == 0 || (3 <= best_len <= MAX_MATCH && 1 <= best_dist <= i && best_dist
                <= MAX_DISTANCE && i + best_len <= data@.len() && forall|k: int|
                0 <= k < best_len ==> #[trigger] data@[i + k] == data@[i + k - best_dist]),
            steps <= chain,
            steps <= cands.len(),
            first_longest(data@, i as int, cands.take(steps as int), best_len as int, best_dist as int),
            !done ==> cands.skip(steps as int) == chain_from(
                i as int,
                prev@,
                cand as int,
                (chain - steps) as nat,
            ),
            done ==> steps == cands.len() || best_len == MAX_MATCH,
            (best_len as int, best_dist as int) == best_over(data@, i as int, cands, steps as nat),
        decreases chain - steps,
    {
        let c = cand - 1;
        let d = i - c;
        let ghost rest = chain_from(i as int, prev@, cand as int, (chain - steps) as nat);
        assert(rest[0] == c as int);
        assert(cands[steps as int] == c as int) by {
            assert(cands.skip(steps as int)[0] == cands[steps as int]);
        }
        let l = match_length(data, i, d);
        let ghost old_len = best_len;
        let ghost old_take = cands.take(steps as int);
        let ghost new_take = cands.take(steps + 1);
        assert(new_take =~= old_take.push(c as int));
        if l >= 3 && l > best_len {
            best_len = l;
            best_dist = d;
            proof {
                assert(new_take[steps as int] == c as int);
                assert forall|j: int| 0 <= j < new_take.len() implies #[trigger] common_len(
                    data@,
                    i as int,
                    i - new_take[j],
                    MAX_MATCH as nat,
                ) <= best_len by {
                    if j < steps {
                        assert(new_take[j] == old_take[j]);
                        if old_len == 0 {
                        } else {
                            let k0 = choose|k: int|
                                0 <= k < old_take.len() && old_len == #[trigger] common_len(
                                    data@,
                                    i as int,
                                    i - old_take[k],
                                    MAX_MATCH as nat,
                                ) && best_dist == i - old_take[k] && (forall|j: int|
                                    0 <= j < k ==> #[trigger] common_len(
                                        data@,
                                        i as int,
                                        i - old_take[j],
                                        MAX_MATCH as nat,
                                    ) < old_len) && (forall|j: int|
                                    0 <= j < old_take.len() ==> #[trigger] common_len(
                                        data@,
                                        i as int,
                                        i - old_take[j],
                                        MAX_MATCH as nat,
                                    ) <= old_len);
                            assert(common_len(data@, i as int, i - old_take[j], MAX_MATCH as nat)
                                <= old_len);
                        }
                    }
                }
                assert forall|j: int| 0 <= j < steps implies #[trigger] common_len(
                    data@,
                    i as int,
                    i - new_take[j],
                    MAX_MATCH as nat,
                ) < best_len by {
                    assert(new_take[j] == old_take[j]);
                    if old_len != 0 {
                        let k0 = choose|k: int|
                            0 <= k < old_take.len() && old_len == #[trigger] common_len(
                                data@,
                                i as int,
                                i - old_take[k],
                                MAX_MATCH as nat,
                            ) && (forall|j: int|
                                0 <= j < old_take.len() ==> #[trigger] common_len(
                                    data@,
                                    i as int,
                                    i - old_take[j],
                                    MAX_MATCH as nat,
                                ) <= old_len);
                        assert(common_len(data@, i as int, i - old_take[j], MAX_MATCH as nat)
                            <= old_len);
                    }
                }
                assert(first_longest(
                    data@,
                    i as int,
                    new_take,
                    best_len as int,
                    best_dist as int,
                ));
            }
        } else {
            proof {
                assert(new_take[steps as int] == c as int);
                if old_len == 0 {
                    assert forall|j: int| 0 <= j < new_take.len() implies #[trigger] common_len(
                        data@,
                        i as int,
                        i - new_take[j],
                        MAX_MATCH as nat,
                    ) < 3 by {
                        if j < steps {
                            assert(new_take[j] == old_take[j]);
                        }
                    }
                } else {
                    let k0 = choose|k: int|
                        0 <= k < old_take.len() && old_len == #[trigger] common_len(
                            data@,
                            i as int,
                            i - old_take[k],
                            MAX_MATCH as nat,
                        ) && best_dist == i - old_take[k] && (forall|j: int|
                            0 <= j < k ==> #[trigger] common_len(
                                data@,
                                i as int,
                                i - old_take[j],
                                MAX_MATCH as nat,
                            ) < old_len) && (forall|j: int|
                            0 <= j < old_take.len() ==> #[trigger] common_len(
                                data@,
                                i as int,
                                i - old_take[j],
                                MAX_MATCH as nat,
                            ) <= old_len);
                    assert(new_take[k0] == old_take[k0]);
                    assert forall|j: int| 0 <= j < new_take.len() implies #[trigger] common_len(
                        data@,
                        i as int,
                        i - new_take[j],
                        MAX_MATCH as nat,
                    ) <= old_len by {
                        if j < steps {
                            assert(new_take[j] == old_take[j]);
                        }
                    }
                    assert forall|j: int| 0 <= j < k0 implies #[trigger] common_len(
                        data@,
                        i as int,
                        i - new_take[j],
                        MAX_MATCH as nat,
                    ) < old_len by {
                        assert(new_take[j] == old_take[j]);
                    }
                }
                assert(first_longest(
                    data@,
                    i as int,
                    new_take,
                    best_len as int,
                    best_dist as int,
                ));
            }
        }
        if best_len == MAX_MATCH {
            done = true;
        } else {
            let next = prev[c % MAX_DISTANCE];
            if next == 0 || next - 1 >= c {
                done = true;
                assert(rest =~= seq![c as int]);
                assert(cands.len() == steps + 1) by {
                    assert(cands.skip(steps as int).len() == 1);
                }
            } else {
                cand = next;
                assert(rest =~= seq![c as int] + chain_from(
                    i as int,
                    prev@,
                    next as int,
                    (chain - steps - 1) as nat,
                ));
                assert(cands.skip(steps + 1) =~= cands.skip(steps as int).skip(1));
                assert(rest.skip(1) =~= chain_from(
                    i as int,
                    prev@,
                    next as int,
                    (chain - steps - 1) as nat,
                ));
            }
        }
        steps = steps + 1;
    }
    proof {
        if !done {
            assert(chain_from(i as int, prev@, cand as int, (chain - steps) as nat) =~= Seq::<
                int,
            >::empty());
            assert(cands.len() == steps) by {
                assert(cands.skip(steps as int).len() == 0);
            }
        }
        if steps < cands.len() {
            assert(best_len == MAX_MATCH);
            lemma_best_over_stays(data@, i as int, cands, steps as nat, cands.len());
            let t = cands.take(steps as int);
            let k0 = choose|k: int|
                0 <= k < t.len() && best_len == #[trigger] common_len(
                    data@,
                    i as int,
                    i - t[k],
                    MAX_MATCH as nat,
                ) && best_dist == i - t[k] && (forall|j: int|
                    0 <= j < k ==> #[trigger] common_len(data@, i as int, i - t[j], MAX_MATCH as nat)
                        < best_len) && (forall|j: int|
                    0 <= j < t.len() ==> #[trigger] common_len(
                        data@,
                        i as int,
                        i - t[j],
                        MAX_MATCH as nat,
                    ) <= best_len);
            assert(t[k0] == cands[k0]);
            assert forall|j: int| 0 <= j < cands.len() implies #[trigger] common_len(
                data@,
                i as int,
                i - cands[j],
                MAX_MATCH as nat,
            ) <= best_len by {
                lemma_common_len_bound(data@, i as int, i - cands[j], MAX_MATCH as nat);
            }
            assert forall|j: int| 0 <= j < k0 implies #[trigger] common_len(
                data@,
                i as int,
                i - cands[j],
                MAX_MATCH as nat,
            ) < best_len by {
                assert(t[j] == cands[j]);
            }
        } else {
            assert(cands.take(steps as int) =~= cands);
        }
    }
    (best_len, best_dist)
}

/// Where token `k` of `tokens` starts in the bytes they replay to.
pub open spec fn token_start(tokens: Seq<Token>, k: int) -> int {
    match replay(Seq::empty(), tokens.take(k)) {
        Some(out) => out.len() as int,
        None => -1,
    }
}

/// The search tables once the positions below `upto` that have three bytes
/// ahead are recorded: for each hash, one past the latest such position
/// (0 for none), and for each position modulo the window, the entry its
/// hash had before it.
pub open spec fn search_tables(data: Seq<u8>, upto: nat) -> (Seq<usize>, Seq<usize>)
    decreases upto,
{
    if upto == 0 {
        (Seq::new(HASH_SIZE as nat, |j: int| 0usize), Seq::new(MAX_DISTANCE as nat, |j: int| 0usize))
    } else {
        let (head, prev) = search_tables(data, (upto - 1) as nat);
        let j = upto - 1;
        if j + 3 <= data.len() {
            let h = hash_at(data, j);
            (head.update(h, (j + 1) as usize), prev.update(j % (MAX_DISTANCE as int), head[h]))
        } else {
            (head, prev)
        }
    }
}

/// The tables always have their sizes.
proof fn lemma_search_tables_len(data: Seq<u8>, upto: nat)
    ensures
        search_tables(data, upto).0.len() == HASH_SIZE,
        search_tables(data, upto).1.len() == MAX_DISTANCE,
    decreases upto,
{
    if upto > 0 {
        lemma_search_tables_len(data, (upto - 1) as nat);
    }
}

/// Recording one more position.
proof fn lemma_search_tables_step(data: Seq<u8>, j: nat)
    ensures
        search_tables(data, j + 1) == if j + 3 <= data.len() {
            let (head, prev) = search_tables(data, j);
            let h = hash_at(data, j as int);
            (head.update(h, (j + 1) as usize), prev.update((j as int) % (MAX_DISTANCE as int), head[h]))
        } else {
            search_tables(data, j)
        },
{
}

/// The earlier positions the search at `p` tries: the hash chain of `p` in
/// the tables of the positions before it, at most `chain` of them.
pub open spec fn searched(data: Seq<u8>, p: int, chain: int) -> Seq<int> {
    let (head, prev) = search_tables(data, p as nat);
    chain_from(p, prev, head[hash_at(data, p)] as int, chain as nat)
}

/// The longest match at `p` with one of the searched positions (or with
/// the byte before it), 0 where three bytes are not left.
pub open spec fn found_len(data: Seq<u8>, p: int, runs_only: bool, chain: int, j: int) -> int {
    if runs_only || j < 0 || j >= searched(data, p, chain).len() {
        0
    } else {
        common_len(data, p, p - searched(data, p, chain)[j], MAX_MATCH as nat) as int
    }
}

/// A literal may stand at position `p` of `data`: where three bytes are
/// left, neither the byte before it nor any searched position (none under
/// `runs_only`) gives a match of three bytes or more; or, with a chain
/// longer than one and matches at any distance, the next position starts a
/// longer match than all of those, and the match at `p` was put off for it.
pub open spec fn literal_allowed(data: Seq<u8>, p: int, runs_only: bool, chain: int) -> bool {
    p + 3 <= data.len() ==> {
        ||| (p >= 1 ==> common_len(data, p, 1, MAX_MATCH as nat) < 3) && forall|j: int|
            #[trigger] found_len(data, p, runs_only, chain, j) < 3
        ||| chain > 1 && !runs_only && p + 4 <= data.len() && exists|d: int|
            1 <= d <= p + 1 && #[trigger] common_len(data, p + 1, d, MAX_MATCH as nat) > common_len(
                data,
                p,
                1,
                MAX_MATCH as nat,
            ) && forall|j: int|
                #[trigger] found_len(data, p, runs_only, chain, j) < common_len(
                    data,
                    p + 1,
                    d,
                    MAX_MATCH as nat,
                )
    }
}

/// A match at position `p` of `data` (where three bytes are left) is no
/// shorter than the run of the byte before it, nor than the match with any
/// searched position (none under `runs_only`).
pub open spec fn match_allowed(data: Seq<u8>, p: int, t: Token, runs_only: bool, chain: int) -> bool {
    p + 3 <= data.len() ==> (p >= 1 ==> match_len(t) >= common_len(data, p, 1, MAX_MATCH as nat))
        && forall|j: int| match_len(t) >= #[trigger] found_len(data, p, runs_only, chain, j)
}

/// The first longest match of three bytes or more with a searched position
/// at `p`, as `(length, distance)`; `(0, 0)` for none.
pub open spec fn best_at(data: Seq<u8>, p: int, chain: int) -> (int, int) {
    best_over(data, p, searched(data, p, chain), searched(data, p, chain).len())
}

/// The match the search picks at `i`, before it may be put off: the best
/// searched one (none under `runs_only`), or the run of the byte before it
/// where that is longer; `(0, _)` for none, and where fewer than three
/// bytes are left.
pub open spec fn choice_at(data: Seq<u8>, i: int, runs_only: bool, chain: int) -> (int, int) {
    if data.len() - i >= 3 {
        let (l, d) = if !runs_only {
            best_at(data, i, chain)
        } else {
            (0, 0)
        };
        if i >= 1 {
            let l1 = common_len(data, i, 1, MAX_MATCH as nat) as int;
            if l1 >= 3 && l1 > l {
                (l1, 1)
            } else {
                (l, d)
            }
        } else {
            (l, d)
        }
    } else {
        (0, 0)
    }
}

/// The match taken at `i`: the choice, put off (length 0) when, with a
/// chain longer than one and matches at any distance, the next position
/// has a longer searched match.
pub open spec fn step_at(data: Seq<u8>, i: int, runs_only: bool, chain: int) -> (int, int) {
    let (l, d) = choice_at(data, i, runs_only, chain);
    if l >= 3 && chain > 1 && !runs_only && data.len() - i >= 4 && best_at(data, i + 1, chain).0
        > l {
        (0, d)
    } else {
        (l, d)
    }
}

/// The tokens the match search gives for `data` from position `i` on.
pub open spec fn parse_from(data: Seq<u8>, runs_only: bool, chain: int, i: int) -> Seq<Token>
    decreases data.len() - i,
{
    if i < 0 || i >= data.len() {
        Seq::empty()
    } else {
        let (l, d) = step_at(data, i, runs_only, chain);
        if l >= 3 && i + l <= data.len() {
            seq![match_token(l, d)] + parse_from(data, runs_only, chain, i + l)
        } else {
            seq![Token::Literal(data[i])] + parse_from(data, runs_only, chain, i + 1)
        }
    }
}

/// Pushing a token keeps where the earlier tokens start.
proof fn lemma_token_start_push(tokens: Seq<Token>, t: Token, k: int)
    requires
        0 <= k <= tokens.len(),
    ensures
        token_start(tokens.push(t), k) == token_start(tokens, k),
{
    assert(tokens.push(t).take(k) =~= tokens.take(k));
}

/// Splits `data` into literals and matches: at each position the longest
/// match among up to `chain` earlier positions with the same three bytes
/// ahead, or with `runs_only` only the match with the previous byte; with a
/// chain longer than one, a match is put off by one byte when the next
/// position starts a longer one.
#[verifier::rlimit(60)]
pub fn find_tokens(data: &[u8], runs_only: bool, chain: usize) -> (r: Vec<Token>)
    ensures
        replay(Seq::empty(), r@) == Some(data@),
        runs_only ==> forall|k: int|
            0 <= k < r@.len() && (#[trigger] r@[k]) is Match ==> match_dist(r@[k]) == 1,
        forall|k: int|
            0 <= k < r@.len() && (#[trigger] r@[k]) is Literal ==> literal_allowed(
                data@,
                token_start(r@, k),
                runs_only,
                chain as int,
            ),
        forall|k: int|
            0 <= k < r@.len() && (#[trigger] r@[k]) is Match ==> match_allowed(
                data@,
                token_start(r@, k),
                r@[k],
                runs_only,
                chain as int,
            ),
        r@ == parse_from(data@, runs_only, chain as int, 0),
{
    let n = data.len();
    let mut head: Vec<usize> = Vec::new();
    let mut j: usize = 0;
    while j < HASH_SIZE
        invariant
            j <= HASH_SIZE,
            head@.len() == j,
            forall|x: int| 0 <= x < j ==> head@[x] == 0,
        decreases HASH_SIZE - j,
    {
        head.push(0);
        j = j + 1;
    }
    let mut prev: Vec<usize> = Vec::new();
    let mut j2: usize = 0;
    while j2 < MAX_DISTANCE
        invariant
            j2 <= MAX_DISTANCE,
            prev@.len() == j2,
            forall|x: int| 0 <= x < j2 ==> prev@[x] == 0,
        decreases MAX_DISTANCE - j2,
    {
        prev.push(0);
        j2 = j2 + 1;
    }
    assert(head@ =~= search_tables(data@, 0).0);
    assert(prev@ =~= search_tables(data@, 0).1);
    let mut tokens: Vec<Token> = Vec::new();
    let mut i: usize = 0;
    assert(data@.take(0) =~= Seq::<u8>::empty());
    while i < n
        invariant
            i <= n == data@.len(),
            head@.len() == HASH_SIZE,
            prev@.len() == MAX_DISTANCE,
            replay(Seq::empty(), tokens@) == Some(data@.take(i as int)),
            runs_only ==> forall|k: int|
                0 <= k < tokens@.len() && (#[trigger] tokens@[k]) is Match ==> match_dist(
                    tokens@[k],
                ) == 1,
            forall|k: int|
                0 <= k < tokens@.len() && (#[trigger] tokens@[k]) is Literal ==> literal_allowed(
                    data@,
                    token_start(tokens@, k),
                    runs_only,
                    chain as int,
                ),
            forall|k: int|
                0 <= k < tokens@.len() && (#[trigger] tokens@[k]) is Match ==> match_allowed(
                    data@,
                    token_start(tokens@, k),
                    tokens@[k],
                    runs_only,
                    chain as int,
                ),
            !runs_only ==> head@ == search_tables(data@, i as nat).0 && prev@ == search_tables(
                data@,
                i as nat,
            ).1,
            tokens@ + parse_from(data@, runs_only, chain as int, i as int) == parse_from(
                data@,
                runs_only,
                chain as int,
                0,
            ),
        decreases n - i,
    {
        let mut best_len: usize = 0;
        let mut best_dist: usize = 0;
        let ghost run: int = if i >= 1 && n - i >= 3 {
            common_len(data@, i as int, 1, MAX_MATCH as nat) as int
        } else {
            0
        };
        if n - i >= 3 {
            if !runs_only {
                let (l, d) = best_match(data, i, &head, &prev, chain);
                proof {
                    assert(chain_from(
                        i as int,
                        prev@,
                        head@[hash_at(data@, i as int)] as int,
                        chain as nat,
                    ) == searched(data@, i as int, chain as int));
                    let c = searched(data@, i as int, chain as int);
                    assert forall|j: int| #[trigger]
                        found_len(data@, i as int, runs_only, chain as int, j) <= l || (l == 0
                            && found_len(data@, i as int, runs_only, chain as int, j) < 3) by {
                        if 0 <= j < c.len() {
                            assert(common_len(data@, i as int, i - c[j], MAX_MATCH as nat)
                                == found_len(data@, i as int, runs_only, chain as int, j));
                        }
                    }
                }
                best_len = l;
                best_dist = d;
            }
            if i >= 1 {
                let l = match_length(data, i, 1);
                if l >= 3 && l > best_len {
                    best_len = l;
                    best_dist = 1;
                }
            }
        }
        assert((best_len as int, best_dist as int) == choice_at(
            data@,
            i as int,
            runs_only,
            chain as int,
        ));
        // With a longer search, a match is put off by one byte when the
        // next position starts a longer one.
        let mut inserted = false;
        let ghost mut deferred = false;
        let ghost mut witness: int = 0;
        if best_len >= 3 && chain > 1 && !runs_only && n - i >= 4 {
            insert_position(data, i, &mut head, &mut prev);
            inserted = true;
            proof {
                lemma_search_tables_step(data@, i as nat);
            }
            let (next_len, next_dist) = best_match(data, i + 1, &head, &prev, chain);
            assert(chain_from(
                i + 1,
                prev@,
                head@[hash_at(data@, i + 1)] as int,
                chain as nat,
            ) == searched(data@, i + 1, chain as int));
            assert(next_len == best_at(data@, i + 1, chain as int).0);
            if next_len > best_len {
                proof {
                    lemma_common_len_split(
                        data@,
                        i + 1,
                        next_dist as int,
                        MAX_MATCH as nat,
                        next_len as nat,
                    );
                    assert(common_len(data@, i + 1, next_dist as int, MAX_MATCH as nat) > run);
                    deferred = true;
                    witness = next_dist as int;
                }
                best_len = 0;
            }
        }
        assert(best_len as int == step_at(data@, i as int, runs_only, chain as int).0);
        assert(best_dist as int == step_at(data@, i as int, runs_only, chain as int).1);
        if best_len >= 3 {
            let (ls, le) = length_slot(best_len);
            let (ds, de) = dist_slot(best_dist);
            let t = Token::Match { len_slot: ls, len_extra: le, dist_slot: ds, dist_extra: de };
            assert(t == match_token(best_len as int, best_dist as int));
            assert(parse_from(data@, runs_only, chain as int, i as int) == seq![t] + parse_from(
                data@,
                runs_only,
                chain as int,
                i + best_len,
            ));
            assert(tokens@.push(t) + parse_from(data@, runs_only, chain as int, i + best_len)
                =~= tokens@ + parse_from(data@, runs_only, chain as int, i as int));
            let ghost before = tokens@;
            proof {
                lemma_replay_push(Seq::empty(), tokens@, t);
                lemma_copy_back_repeats(data@, i as int, best_dist as int, best_len as nat);
            }
            tokens.push(t);
            proof {
                assert forall|k: int|
                    0 <= k < tokens@.len() && (#[trigger] tokens@[k]) is Literal implies literal_allowed(
                    data@,
                    token_start(tokens@, k),
                    runs_only,
                    chain as int,
                ) by {
                    assert(k < before.len());
                    assert(before[k] == tokens@[k]);
                    lemma_token_start_push(before, t, k);
                }
                assert(tokens@.take(before.len() as int) =~= before);
                assert(token_start(tokens@, before.len() as int) == i);
                assert(match_len(t) == best_len);
                assert(match_allowed(data@, i as int, t, runs_only, chain as int));
                assert forall|k: int|
                    0 <= k < tokens@.len() && (#[trigger] tokens@[k]) is Match implies match_allowed(
                    data@,
                    token_start(tokens@, k),
                    tokens@[k],
                    runs_only,
                    chain as int,
                ) by {
                    if k < before.len() {
                        assert(before[k] == tokens@[k]);
                        lemma_token_start_push(before, t, k);
                    }
                }
            }
            let mut k: usize = if inserted {
                1
            } else {
                0
            };
            proof {
                if !runs_only && !inserted {
                    assert(k == 0);
                }
            }
            while k < best_len
                invariant
                    k <= best_len,
                    i + best_len <= n == data@.len(),
                    head@.len() == HASH_SIZE,
                    prev@.len() == MAX_DISTANCE,
                    !runs_only ==> head@ == search_tables(data@, (i + k) as nat).0 && prev@
                        == search_tables(data@, (i + k) as nat).1,
                decreases best_len - k,
            {
                proof {
                    lemma_search_tables_step(data@, (i + k) as nat);
                }
                if n - (i + k) >= 3 && !runs_only {
                    insert_position(data, i + k, &mut head, &mut prev);
                }
                k = k + 1;
            }
            i = i + best_len;
        } else {
            let t = Token::Literal(data[i]);
            let ghost before = tokens@;
            assert(parse_from(data@, runs_only, chain as int, i as int) == seq![t] + parse_from(
                data@,
                runs_only,
                chain as int,
                i + 1,
            ));
            assert(tokens@.push(t) + parse_from(data@, runs_only, chain as int, i + 1) =~= tokens@
                + parse_from(data@, runs_only, chain as int, i as int));
            proof {
                lemma_replay_push(Seq::empty(), tokens@, t);
                assert(data@.take(i as int).push(data@[i as int]) =~= data@.take(i + 1));
                if deferred {
                    assert(common_len(data@, i + 1, witness, MAX_MATCH as nat) > common_len(
                        data@,
                        i as int,
                        1,
                        MAX_MATCH as nat,
                    ));
                }
                assert(literal_allowed(data@, i as int, runs_only, chain as int));
            }
            tokens.push(t);
            proof {
                assert(tokens@.take(before.len() as int) =~= before);
                assert(token_start(tokens@, before.len() as int) == i);
                assert forall|k: int|
                    0 <= k < tokens@.len() && (#[trigger] tokens@[k]) is Literal implies literal_allowed(
                    data@,
                    token_start(tokens@, k),
                    runs_only,
                    chain as int,
                ) by {
                    if k < before.len() {
                        assert(before[k] == tokens@[k]);
                        lemma_token_start_push(before, t, k);
                    }
                }
                assert forall|k: int|
                    0 <= k < tokens@.len() && (#[trigger] tokens@[k]) is Match implies match_allowed(
                    data@,
                    token_start(tokens@, k),
                    tokens@[k],
                    runs_only,
                    chain as int,
                ) by {
                    assert(k < before.len());
                    assert(before[k] == tokens@[k]);
                    lemma_token_start_push(before, t, k);
                }
            }
            proof {
                lemma_search_tables_step(data@, i as nat);
            }
            if n - i >= 3 && !runs_only && !inserted {
                insert_position(data, i, &mut head, &mut prev);
            }
            i = i + 1;
        }
    }
    assert(data@.take(n as int) =~= data@);
    assert(tokens@ + parse_from(data@, runs_only, chain as int, i as int) =~= tokens@);
    tokens
}

} // verus!
