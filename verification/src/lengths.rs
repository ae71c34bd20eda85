//! Choosing code lengths from symbol frequencies: Huffman's construction,
//! with frequencies flattened until no code is longer than allowed. The
//! result is always a complete code with a code for exactly the symbols that
//! occur: the tree's lengths are checked, and where they fall short, codes of
//! two neighbouring lengths take their place.
use vstd::prelude::*;
use crate::bits::{lemma_pow2_small_monotonic, lemma_pow2_small_step, pow2_small};
use crate::huffman::{code_count, code_space_left, symbols_of_length, Huffman, MAX_CODE_LEN};

verus! {

/// How many of the first `n` frequencies are positive.
pub open spec fn positives(freqs: Seq<u32>, n: int) -> int
    decreases n,
{
    if n <= 0 {
        0
    } else {
        positives(freqs, n - 1) + if freqs[n - 1] > 0 {
            1int
        } else {
            0int
        }
    }
}

/// A code for `freqs`: complete, with a code of 1 to `max_len` bits for
/// each symbol that occurs and none for the others.
pub open spec fn exact_code(freqs: Seq<u32>, lengths: Seq<u8>, max_len: u8) -> bool {
    &&& lengths.len() == freqs.len()
    &&& code_space_left(lengths, MAX_CODE_LEN as nat) == 0
    &&& forall|i: int|
        0 <= i < freqs.len() ==> (#[trigger] freqs[i] > 0 ==> 1 <= lengths[i] <= max_len) && (
        freqs[i] == 0 ==> lengths[i] == 0)
}

/// `lengths`, at least `min` of them and trimmed of trailing zeros past
/// that, are code lengths of at most `max_len` bits for the symbols with
/// frequencies `freqs`: every symbol that occurs has a code; with two or
/// more occurring symbols the code is complete and no other symbol has one;
/// with one, the code is two codes of one bit; with none, there are no codes.
pub open spec fn lengths_fit(freqs: Seq<u32>, lengths: Seq<u8>, max_len: u8, min: int) -> bool {
    &&& min <= lengths.len() <= freqs.len()
    &&& lengths.len() == min || lengths[lengths.len() - 1] != 0
    &&& forall|i: int|
        0 <= i < freqs.len() && #[trigger] freqs[i] > 0 ==> i < lengths.len() && 1 <= lengths[i]
            <= max_len
    &&& forall|i: int| 0 <= i < lengths.len() ==> #[trigger] lengths[i] <= max_len
    &&& positives(freqs, freqs.len() as int) >= 2 ==> code_space_left(lengths, MAX_CODE_LEN as nat)
        == 0 && forall|i: int| 0 <= i < lengths.len() && #[trigger] freqs[i] == 0 ==> lengths[i] == 0
    &&& positives(freqs, freqs.len() as int) == 1 ==> code_space_left(lengths, MAX_CODE_LEN as nat)
        == 0 && forall|i: int| 0 <= i < lengths.len() ==> #[trigger] lengths[i] <= 1
    &&& positives(freqs, freqs.len() as int) == 0 ==> forall|i: int|
        0 <= i < lengths.len() ==> #[trigger] lengths[i] == 0
}

/// Appending a length leaves the symbols below the old end as they were.
proof fn lemma_symbols_of_length_push(s: Seq<u8>, x: u8, len: int, k: nat)
    requires
        k <= s.len(),
    ensures
        symbols_of_length(s.push(x), len, k) == symbols_of_length(s, len, k),
    decreases k,
{
    if k > 0 {
        lemma_symbols_of_length_push(s, x, len, (k - 1) as nat);
        assert(s.push(x)[k - 1] == s[k - 1]);
    }
}

/// Appending a length adds it to its count.
proof fn lemma_code_count_push(s: Seq<u8>, x: u8, len: int)
    ensures
        code_count(s.push(x), len) == code_count(s, len) + if x == len {
            1int
        } else {
            0int
        },
{
    lemma_symbols_of_length_push(s, x, len, s.len());
    assert(s.push(x)[s.len() as int] == x);
}

/// The free code space of a code with `a` codes of length `d - 1`, `b` of
/// length `d`, and no other lengths from 1 to 15, up to length `l`.
proof fn lemma_two_length_space(lengths: Seq<u8>, d: nat, a: int, b: int, l: nat)
    requires
        1 <= d <= 15,
        l <= 15,
        d >= 2 ==> code_count(lengths, d - 1) == a,
        d == 1 ==> a == 0,
        0 <= a <= pow2_small((d - 1) as nat),
        code_count(lengths, d as int) == b,
        2 * a + b == pow2_small(d),
        forall|j: int| 1 <= j <= 15 && j != d && j != d - 1 ==> #[trigger] code_count(lengths, j) == 0,
    ensures
        code_space_left(lengths, l) == if l + 1 < d {
            pow2_small(l)
        } else if l + 1 == d {
            pow2_small(l) - a
        } else {
            0
        },
    decreases l,
{
    if l > 0 {
        lemma_two_length_space(lengths, d, a, b, (l - 1) as nat);
        lemma_pow2_small_step((l - 1) as nat);
        if d >= 2 {
            lemma_pow2_small_step((d - 2) as nat);
        }
    }
}

/// The symbols among the first `k` whose frequency is positive, in order.
pub open spec fn occurring(freqs: Seq<u32>, k: nat) -> Seq<usize>
    decreases k,
{
    if k == 0 {
        Seq::empty()
    } else {
        let s = occurring(freqs, (k - 1) as nat);
        if freqs[k - 1] > 0 {
            s.push((k - 1) as usize)
        } else {
            s
        }
    }
}

/// The positive frequencies among the first `k`, in order.
pub open spec fn occurring_weights(freqs: Seq<u32>, k: nat) -> Seq<u64>
    decreases k,
{
    if k == 0 {
        Seq::empty()
    } else {
        let s = occurring_weights(freqs, (k - 1) as nat);
        if freqs[k - 1] > 0 {
            s.push(freqs[k - 1] as u64)
        } else {
            s
        }
    }
}

/// The fewest bits, from `d` on and at most 15, that give `k` codes.
pub open spec fn depth_for(k: int, d: nat) -> nat
    decreases 15 - d,
{
    if d >= 15 || pow2_small(d) >= k {
        d
    } else {
        depth_for(k, d + 1)
    }
}

/// The lengths `flat_lengths` gives for `k` occurring symbols: with
/// `2^(d-1) < k <= 2^d`, the first `2^d - k` occurring symbols get `d - 1`
/// bits and the others `d`.
pub open spec fn flat_spec(freqs: Seq<u32>, k: int) -> Seq<u8> {
    let d = depth_for(k, 1);
    let short = pow2_small(d) - k;
    Seq::new(
        freqs.len(),
        |i: int|
            if freqs[i] == 0 {
                0u8
            } else if positives(freqs, i) < short {
                (d - 1) as u8
            } else {
                d as u8
            },
    )
}

/// Two codes of one bit: for `s` and for the first other symbol.
pub open spec fn single_spec(freqs: Seq<u32>, s: int) -> Seq<u8> {
    let other = if s == 0 {
        1int
    } else {
        0int
    };
    Seq::new(freqs.len(), |i: int| if freqs[i] > 0 || i == other { 1u8 } else { 0u8 })
}

/// The code lengths `huffman_lengths` gives: none without occurring
/// symbols; two codes of one bit with one; otherwise the lengths of
/// Huffman's tree (flattened until no code is longer than `max_len`) when
/// they form a complete code for exactly the occurring symbols, and
/// `flat_spec` where they do not.
pub open spec fn huffman_spec(freqs: Seq<u32>, max_len: u8) -> Seq<u8> {
    let n = freqs.len();
    let syms = occurring(freqs, n);
    let m = syms.len();
    if m == 0 {
        Seq::new(n, |i: int| 0u8)
    } else if m == 1 {
        single_spec(freqs, syms[0] as int)
    } else {
        let h = tree_spec(n, syms, occurring_weights(freqs, n), max_len, 0);
        if exact_code(freqs, h, max_len) {
            h
        } else {
            flat_spec(freqs, m as int)
        }
    }
}

/// Lengths for `k` symbols, at least two, with no heed to their
/// frequencies: with `2^(d-1) < k <= 2^d`, the first `2^d - k` occurring
/// symbols get `d - 1` bits and the others `d` bits, which fills the code.
fn flat_lengths(freqs: &Vec<u32>, max_len: u8, k: usize) -> (r: Vec<u8>)
    requires
        2 <= k,
        k == positives(freqs@, freqs@.len() as int),
        k <= pow2_small(max_len as nat),
        1 <= max_len <= 15,
    ensures
        exact_code(freqs@, r@, max_len),
        r@ == flat_spec(freqs@, k as int),
{
    proof {
        crate::bits::lemma_pow2_small_values();
    }
    let mut d: u8 = 1;
    let mut p: usize = 2;
    while p < k
        invariant
            1 <= d <= max_len <= 15,
            p == pow2_small(d as nat),
            pow2_small((d - 1) as nat) < k <= pow2_small(max_len as nat),
            2 <= k,
            depth_for(k as int, 1) == depth_for(k as int, d as nat),
        decreases max_len - d,
    {
        proof {
            if d >= max_len {
                lemma_pow2_small_monotonic(max_len as nat, d as nat);
            }
            lemma_pow2_small_step(d as nat);
        }
        d = d + 1;
        p = p * 2;
    }
    proof {
        lemma_pow2_small_step((d - 1) as nat);
    }
    assert(depth_for(k as int, d as nat) == d);
    let short = p - k;
    let n = freqs.len();
    let mut r: Vec<u8> = Vec::new();
    let mut c: usize = 0;
    let mut i: usize = 0;
    while i < n
        invariant
            i <= n == freqs@.len(),
            r@.len() == i,
            1 <= d <= max_len <= 15,
            p == pow2_small(d as nat),
            short == p - k,
            2 * short < p,
            d == 1 ==> short == 0,
            c == positives(freqs@, i as int),
            k == positives(freqs@, n as int),
            d >= 2 ==> code_count(r@, d - 1) == if c < short {
                c as int
            } else {
                short as int
            },
            code_count(r@, d as int) == if c < short {
                0
            } else {
                c - short
            },
            forall|j: int|
                1 <= j <= 15 && j != d && j != d - 1 ==> #[trigger] code_count(r@, j) == 0,
            forall|j: int|
                0 <= j < i ==> (#[trigger] freqs@[j] > 0 ==> 1 <= r@[j] <= max_len) && (freqs@[j]
                    == 0 ==> r@[j] == 0),
            d == depth_for(k as int, 1),
            forall|j: int| 0 <= j < i ==> r@[j] == #[trigger] flat_spec(freqs@, k as int)[j],
        decreases n - i,
    {
        let ghost before = r@;
        let x: u8 = if freqs[i] == 0 {
            0
        } else if c < short {
            d - 1
        } else {
            d
        };
        r.push(x);
        proof {
            assert forall|j: int| 0 <= j <= 15 implies #[trigger] code_count(r@, j)
                == code_count(before, j) + if x == j {
                1int
            } else {
                0int
            } by {
                lemma_code_count_push(before, x, j);
            }
            assert(r@[i as int] == x);
            lemma_positives_bound(freqs@, i as int);
        }
        if freqs[i] != 0 {
            c = c + 1;
        }
        i = i + 1;
    }
    proof {
        lemma_two_length_space(
            r@,
            d as nat,
            short as int,
            (k - short) as int,
            MAX_CODE_LEN as nat,
        );
    }
    r
}

/// The count of positive frequencies never exceeds how many there are.
pub proof fn lemma_positives_bound(freqs: Seq<u32>, n: int)
    ensures
        0 <= positives(freqs, n) <= if n < 0 {
            0
        } else {
            n
        },
    decreases n,
{
    if n > 0 {
        lemma_positives_bound(freqs, n - 1);
    }
}

/// Node `a` is a live node of least weight among the first `n`, other than
/// `other`, and the first such.
spec fn first_lightest(weight: Seq<u64>, alive: Seq<bool>, n: int, other: int, a: int) -> bool {
    &&& 0 <= a < n
    &&& alive[a]
    &&& a != other
    &&& forall|j: int| 0 <= j < n && alive[j] && j != other ==> weight[a] <= #[trigger] weight[j]
    &&& forall|j: int| 0 <= j < a && alive[j] && j != other ==> weight[a] < #[trigger] weight[j]
}

/// The first live node of least weight among the first `n`, other than
/// `other`; -1 when there is none.
pub open spec fn lightest(weight: Seq<u64>, alive: Seq<bool>, n: int, other: int) -> int
    decreases n,
{
    if n <= 0 {
        -1
    } else {
        let p = lightest(weight, alive, n - 1, other);
        let j = n - 1;
        if alive[j] && j != other && (p < 0 || weight[j] < weight[p]) {
            j
        } else {
            p
        }
    }
}

/// Leaving out a node that is not among the first `n` changes nothing.
proof fn lemma_lightest_other(weight: Seq<u64>, alive: Seq<bool>, n: int, other: int)
    requires
        other < 0 || other >= n,
    ensures
        lightest(weight, alive, n, other) == lightest(weight, alive, n, -1),
    decreases n,
{
    if n > 0 {
        lemma_lightest_other(weight, alive, n - 1, other);
    }
}

/// The index an option holds, -1 for none.
spec fn index_of(o: Option<usize>) -> int {
    match o {
        Some(a) => a as int,
        None => -1,
    }
}

/// The two live nodes of least weight, if there are two: the first of
/// least weight, then the first of least weight among the others.
fn two_lightest(weight: &Vec<u64>, alive: &Vec<bool>) -> (r: Option<(usize, usize)>)
    requires
        weight@.len() == alive@.len(),
    ensures
        r matches Some((a, b)) ==> a < weight@.len() && b < weight@.len() && a != b,
        match r {
            Some((a, b)) => first_lightest(weight@, alive@, weight@.len() as int, -1, a as int)
                && first_lightest(weight@, alive@, weight@.len() as int, a as int, b as int),
            None => forall|j: int, k: int|
                0 <= j < k < alive@.len() && #[trigger] alive@[j] ==> !#[trigger] alive@[k],
        },
        ({
            let a = lightest(weight@, alive@, weight@.len() as int, -1);
            let b = lightest(weight@, alive@, weight@.len() as int, a);
            match r {
                Some((x, y)) => x == a && y == b,
                None => a < 0 || b < 0,
            }
        }),
{
    let n = weight.len();
    let mut first: Option<usize> = None;
    let mut second: Option<usize> = None;
    let mut i: usize = 0;
    while i < n
        invariant
            i <= n == weight@.len() == alive@.len(),
            first matches Some(a) ==> a < i,
            second matches Some(b) ==> b < i,
            first matches Some(a) ==> (second matches Some(b) ==> a != b),
            second is Some ==> first is Some,
            first is None ==> forall|j: int| 0 <= j < i ==> !#[trigger] alive@[j],
            first matches Some(a) ==> first_lightest(weight@, alive@, i as int, -1, a as int),
            first matches Some(a) ==> (second is None ==> forall|j: int|
                0 <= j < i && #[trigger] alive@[j] ==> j == a),
            first matches Some(a) ==> (second matches Some(b) ==> first_lightest(
                weight@,
                alive@,
                i as int,
                a as int,
                b as int,
            )),
            index_of(first) == lightest(weight@, alive@, i as int, -1),
            index_of(second) == lightest(weight@, alive@, i as int, index_of(first)),
        decreases n - i,
    {
        proof {
            lemma_lightest_other(weight@, alive@, i as int, i as int);
            lemma_lightest_other(weight@, alive@, i as int, -1);
        }
        if alive[i] {
            match first {
                None => {
                    first = Some(i);
                },
                Some(a) => {
                    if weight[i] < weight[a] {
                        second = first;
                        first = Some(i);
                    } else {
                        match second {
                            None => {
                                second = Some(i);
                            },
                            Some(b) => {
                                if weight[i] < weight[b] {
                                    second = Some(i);
                                }
                            },
                        }
                    }
                },
            }
        }
        i = i + 1;
    }
    match (first, second) {
        (Some(a), Some(b)) => Some((a, b)),
        _ => None,
    }
}

/// The largest weight a node of the tree takes; sums stop there.
pub open spec fn weight_cap() -> int {
    0xFFFF_FFFFint * 640
}

/// The tree being built: the weight of each node, whether it is still a
/// root, and its parent (0 while it has none).
pub type Forest = (Seq<u64>, Seq<bool>, Seq<usize>);

/// One step of Huffman's construction: the two lightest roots get a new
/// parent whose weight is their sum; with fewer than two roots, nothing
/// changes.
pub open spec fn merge_step(f: Forest) -> Forest {
    let (w, a, p) = f;
    let x = lightest(w, a, w.len() as int, -1);
    let y = lightest(w, a, w.len() as int, x);
    if x < 0 || y < 0 {
        f
    } else {
        let node = w.len() as usize;
        let sum = w[x] + w[y];
        let nw: u64 = if sum <= weight_cap() {
            sum as u64
        } else {
            weight_cap() as u64
        };
        (
            w.push(nw),
            a.update(x, false).update(y, false).push(true),
            p.update(x, node).update(y, node).push(0usize),
        )
    }
}

/// The forest over the leaf weights after `k` steps.
pub open spec fn merged(leaves: Seq<u64>, k: nat) -> Forest
    decreases k,
{
    if k == 0 {
        (leaves, Seq::new(leaves.len(), |i: int| true), Seq::new(leaves.len(), |i: int| 0usize))
    } else {
        merge_step(merged(leaves, (k - 1) as nat))
    }
}

/// The depth of node `idx` below the root, following parents that come
/// after it; 255 at most.
pub open spec fn node_depth(parent: Seq<usize>, idx: int) -> int
    decreases parent.len() - idx,
{
    if idx < 0 || idx >= parent.len() {
        0
    } else {
        let q = parent[idx] as int;
        if q > idx && q < parent.len() {
            let d = node_depth(parent, q);
            if d < 255 {
                d + 1
            } else {
                255
            }
        } else {
            0
        }
    }
}

/// The depth of each leaf in Huffman's tree over `leaves`.
pub open spec fn leaf_depths_spec(leaves: Seq<u64>) -> Seq<u8> {
    let steps: nat = if leaves.len() == 0 {
        0
    } else {
        (leaves.len() - 1) as nat
    };
    let parent = merged(leaves, steps).2;
    Seq::new(leaves.len(), |j: int| node_depth(parent, j) as u8)
}

/// Once a step changes nothing, no later step does.
proof fn lemma_merged_stays(leaves: Seq<u64>, k: nat, j: nat)
    requires
        k <= j,
        merge_step(merged(leaves, k)) == merged(leaves, k),
    ensures
        merged(leaves, j) == merged(leaves, k),
    decreases j,
{
    if j > k {
        lemma_merged_stays(leaves, k, (j - 1) as nat);
    }
}

/// A node's depth is at most 255.
proof fn lemma_node_depth_bound(parent: Seq<usize>, idx: int)
    ensures
        0 <= node_depth(parent, idx) <= 255,
    decreases parent.len() - idx,
{
    if 0 <= idx < parent.len() {
        let q = parent[idx] as int;
        if q > idx && q < parent.len() {
            lemma_node_depth_bound(parent, q);
        }
    }
}

/// The depth of each leaf of the Huffman tree over the given positive
/// weights, at most 255.
fn leaf_depths(leaf_weights: &Vec<u64>) -> (r: Vec<u8>)
    requires
        leaf_weights@.len() <= 320,
        forall|i: int| 0 <= i < leaf_weights@.len() ==> leaf_weights@[i] <= 0xFFFF_FFFF,
    ensures
        r@.len() == leaf_weights@.len(),
        r@ == leaf_depths_spec(leaf_weights@),
{
    let m = leaf_weights.len();
    let mut weight: Vec<u64> = Vec::new();
    let mut alive: Vec<bool> = Vec::new();
    let mut parent: Vec<usize> = Vec::new();
    let mut i: usize = 0;
    while i < m
        invariant
            i <= m == leaf_weights@.len() <= 320,
            weight@ == leaf_weights@.take(i as int),
            alive@ == Seq::new(i as nat, |j: int| true),
            parent@ == Seq::new(i as nat, |j: int| 0usize),
            forall|j: int| 0 <= j < i ==> weight@[j] <= 0xFFFF_FFFF * 640,
            forall|j: int| 0 <= j < m ==> leaf_weights@[j] <= 0xFFFF_FFFF,
        decreases m - i,
    {
        weight.push(leaf_weights[i]);
        alive.push(true);
        parent.push(0);
        i = i + 1;
        assert(weight@ =~= leaf_weights@.take(i as int));
        assert(alive@ =~= Seq::new(i as nat, |j: int| true));
        assert(parent@ =~= Seq::new(i as nat, |j: int| 0usize));
    }
    assert(weight@ =~= leaf_weights@);
    let mut merges: usize = 0;
    let mut stuck = false;
    while merges + 1 < m && !stuck
        invariant
            m == leaf_weights@.len() <= 320,
            weight@.len() == alive@.len() == parent@.len() == m + merges,
            merges < m || m == 0,
            merges <= 320,
            forall|j: int| 0 <= j < weight@.len() ==> weight@[j] <= 0xFFFF_FFFF * 640,
            (weight@, alive@, parent@) == merged(leaf_weights@, merges as nat),
            stuck ==> merges + 1 < m,
            stuck ==> merge_step(merged(leaf_weights@, merges as nat)) == merged(
                leaf_weights@,
                merges as nat,
            ),
        decreases 2 * (m - merges) + if stuck { 0int } else { 1int },
    {
        match two_lightest(&weight, &alive) {
            None => {
                stuck = true;
            },
            Some((a, b)) => {
                let w = if weight[a] + weight[b] <= 0xFFFF_FFFF * 640 {
                    weight[a] + weight[b]
                } else {
                    0xFFFF_FFFF * 640
                };
                let node = weight.len();
                let ghost before = (weight@, alive@, parent@);
                alive.set(a, false);
                alive.set(b, false);
                parent.set(a, node);
                parent.set(b, node);
                weight.push(w);
                alive.push(true);
                parent.push(0);
                merges = merges + 1;
                assert((weight@, alive@, parent@) =~~= merge_step(before));
            },
        }
    }
    proof {
        if stuck {
            assert(m >= 2);
            lemma_merged_stays(leaf_weights@, merges as nat, (m - 1) as nat);
        }
    }
    let total = weight.len();
    let mut depth: Vec<u8> = Vec::new();
    let mut k: usize = 0;
    while k < total
        invariant
            k <= total == parent@.len(),
            depth@ == Seq::new(k as nat, |j: int| 0u8),
        decreases total - k,
    {
        depth.push(0);
        k = k + 1;
        assert(depth@ =~= Seq::new(k as nat, |j: int| 0u8));
    }
    let mut idx: usize = total;
    while idx > 0
        invariant
            idx <= total == parent@.len() == depth@.len(),
            forall|j: int| idx <= j < total ==> depth@[j] == node_depth(parent@, j),
            forall|j: int| 0 <= j < idx ==> depth@[j] == 0,
        decreases idx,
    {
        idx = idx - 1;
        let p = parent[idx];
        proof {
            lemma_node_depth_bound(parent@, p as int);
        }
        if p > idx && p < total {
            let d = depth[p];
            depth.set(idx, if d < 255 {
                d + 1
            } else {
                255
            });
        }
    }
    let mut leaves: Vec<u8> = Vec::new();
    let mut j: usize = 0;
    while j < m
        invariant
            j <= m <= total == depth@.len() == parent@.len(),
            leaves@.len() == j,
            forall|x: int| 0 <= x < j ==> leaves@[x] == node_depth(parent@, x) as u8,
            forall|x: int| 0 <= x < total ==> depth@[x] == node_depth(parent@, x),
        decreases m - j,
    {
        leaves.push(depth[j]);
        j = j + 1;
    }
    assert(leaves@ =~= leaf_depths_spec(leaf_weights@));
    leaves
}

/// The largest of the first `k` depths (0 for none).
pub open spec fn deepest_of(d: Seq<u8>, k: nat) -> u8
    decreases k,
{
    if k == 0 {
        0
    } else {
        let x = deepest_of(d, (k - 1) as nat);
        if d[k - 1] > x {
            d[k - 1]
        } else {
            x
        }
    }
}

/// `n` lengths of 0, with `d[j]` put at `symbols[j]` for the first `k`.
pub open spec fn placed(n: nat, symbols: Seq<usize>, d: Seq<u8>, k: nat) -> Seq<u8>
    decreases k,
{
    if k == 0 {
        Seq::new(n, |i: int| 0u8)
    } else {
        placed(n, symbols, d, (k - 1) as nat).update(symbols[k - 1] as int, d[k - 1])
    }
}

/// Each weight halved, plus one.
pub open spec fn halved(w: Seq<u64>) -> Seq<u64> {
    Seq::new(w.len(), |i: int| (w[i] / 2 + 1) as u64)
}

/// The lengths that Huffman's tree over `weights` gives the `symbols`,
/// from round `round` on: the tree's depths when none is deeper than
/// `max_len`; otherwise the weights halved and the tree built again, up to
/// round 32, after which every length is 0.
pub open spec fn tree_spec(
    n: nat,
    symbols: Seq<usize>,
    weights: Seq<u64>,
    max_len: u8,
    round: nat,
) -> Seq<u8>
    decreases 32 - round,
{
    if round >= 32 {
        Seq::new(n, |i: int| 0u8)
    } else {
        let d = leaf_depths_spec(weights);
        if deepest_of(d, d.len()) <= max_len {
            placed(n, symbols, d, symbols.len())
        } else {
            tree_spec(n, symbols, halved(weights), max_len, round + 1)
        }
    }
}

/// The depths of the Huffman tree over the weights of the occurring
/// `symbols`, as lengths of all `n` symbols, when none is deeper than
/// `max_len`; otherwise the weights are flattened and the tree built again,
/// up to 32 times, after which no lengths are given.
fn tree_lengths(
    n: usize,
    symbols: &Vec<usize>,
    weights: Vec<u64>,
    max_len: u8,
) -> (r: Vec<u8>)
    requires
        n <= 320,
        1 <= max_len <= 15,
        symbols@.len() == weights@.len() <= n,
        forall|j: int| 0 <= j < symbols@.len() ==> symbols@[j] < n,
        forall|j: int| 0 <= j < weights@.len() ==> weights@[j] <= 0xFFFF_FFFF,
    ensures
        r@.len() == n,
        forall|i: int| 0 <= i < n ==> r@[i] <= max_len,
        r@ == tree_spec(n as nat, symbols@, weights@, max_len, 0),
{
    let ghost target = tree_spec(n as nat, symbols@, weights@, max_len, 0);
    let m = symbols.len();
    let mut ws = weights;
    let mut lengths: Vec<u8> = Vec::new();
    let mut i: usize = 0;
    while i < n
        invariant
            i <= n,
            lengths@ == Seq::new(i as nat, |j: int| 0u8),
        decreases n - i,
    {
        lengths.push(0);
        i = i + 1;
        assert(lengths@ =~= Seq::new(i as nat, |j: int| 0u8));
    }
    let mut round: usize = 0;
    while round < 32
        invariant
            n <= 320,
            1 <= max_len <= 15,
            lengths@ == Seq::new(n as nat, |j: int| 0u8),
            symbols@.len() == ws@.len() == m <= n,
            forall|j: int| 0 <= j < m ==> symbols@[j] < n,
            forall|j: int| 0 <= j < m ==> ws@[j] <= 0xFFFF_FFFF,
            round <= 32,
            target == tree_spec(n as nat, symbols@, ws@, max_len, round as nat),
            target == tree_spec(n as nat, symbols@, weights@, max_len, 0),
        decreases 32 - round,
    {
        let depths = leaf_depths(&ws);
        let mut deepest: u8 = 0;
        let mut k: usize = 0;
        while k < m
            invariant
                k <= m == depths@.len(),
                forall|j: int| 0 <= j < k ==> depths@[j] <= deepest,
                deepest == deepest_of(depths@, k as nat),
            decreases m - k,
        {
            if depths[k] > deepest {
                deepest = depths[k];
            }
            k = k + 1;
        }
        if deepest <= max_len {
            let mut k2: usize = 0;
            while k2 < m
                invariant
                    k2 <= m == depths@.len() == symbols@.len(),
                    lengths@.len() == n,
                    forall|j: int| 0 <= j < m ==> symbols@[j] < n,
                    forall|j: int| 0 <= j < n ==> lengths@[j] <= max_len,
                    forall|j: int| 0 <= j < m ==> depths@[j] <= deepest,
                    deepest <= max_len,
                    lengths@ == placed(n as nat, symbols@, depths@, k2 as nat),
                decreases m - k2,
            {
                lengths.set(symbols[k2], depths[k2]);
                k2 = k2 + 1;
            }
            assert(depths@ == leaf_depths_spec(ws@));
            assert(deepest_of(depths@, depths@.len()) <= max_len);
            assert(tree_spec(n as nat, symbols@, ws@, max_len, round as nat) == placed(
                n as nat,
                symbols@,
                depths@,
                m as nat,
            ));
            assert(lengths@ == target);
            return lengths;
        }
        let ghost old_w = ws@;
        let mut k3: usize = 0;
        while k3 < m
            invariant
                k3 <= m == ws@.len() == old_w.len(),
                forall|j: int| 0 <= j < m ==> old_w[j] <= 0xFFFF_FFFF,
                forall|j: int| 0 <= j < k3 ==> ws@[j] == (old_w[j] / 2 + 1) as u64,
                forall|j: int| k3 <= j < m ==> ws@[j] == old_w[j],
            decreases m - k3,
        {
            let w = ws[k3];
            ws.set(k3, w / 2 + 1);
            k3 = k3 + 1;
        }
        assert(ws@ =~= halved(old_w));
        round = round + 1;
    }
    lengths
}

/// Code lengths of at most `max_len` bits, from Huffman's construction
/// over the frequencies: no code for symbols of frequency 0, and two codes
/// of one bit when only one symbol occurs. Where the tree, flattened until
/// no code is longer than allowed, does not give a complete code (which the
/// construction is meant never to do), the occurring symbols get codes of
/// one or two neighbouring lengths instead, which always form one.
pub(crate) fn huffman_lengths(freqs: &Vec<u32>, max_len: u8) -> (r: Vec<u8>)
    requires
        2 <= freqs@.len() <= 320,
        1 <= max_len <= 15,
        freqs@.len() <= pow2_small(max_len as nat),
    ensures
        r@.len() == freqs@.len(),
        forall|i: int| 0 <= i < r@.len() ==> r@[i] <= max_len,
        positives(freqs@, freqs@.len() as int) == 0 ==> forall|i: int|
            0 <= i < r@.len() ==> r@[i] == 0,
        positives(freqs@, freqs@.len() as int) == 1 ==> code_space_left(
            r@,
            MAX_CODE_LEN as nat,
        ) == 0 && forall|i: int|
            0 <= i < r@.len() ==> #[trigger] r@[i] <= 1 && (freqs@[i] > 0 ==> r@[i] == 1),
        positives(freqs@, freqs@.len() as int) >= 2 ==> exact_code(freqs@, r@, max_len),
        positives(freqs@, freqs@.len() as int) >= 1 ==> code_space_left(r@, MAX_CODE_LEN as nat)
            == 0 && forall|i: int|
            0 <= i < r@.len() && #[trigger] freqs@[i] > 0 ==> 1 <= r@[i] <= max_len,
        r@ == huffman_spec(freqs@, max_len),
{
    let n = freqs.len();
    let mut symbols: Vec<usize> = Vec::new();
    let mut weights: Vec<u64> = Vec::new();
    let mut i: usize = 0;
    while i < n
        invariant
            i <= n == freqs@.len() <= 320,
            symbols@.len() == weights@.len() == positives(freqs@, i as int),
            forall|j: int| 0 <= j < symbols@.len() ==> symbols@[j] < i,
            forall|j: int| 0 <= j < symbols@.len() ==> #[trigger] freqs@[symbols@[j] as int] > 0,
            forall|j: int| 0 <= j < weights@.len() ==> weights@[j] <= 0xFFFF_FFFF,
            symbols@ == occurring(freqs@, i as nat),
            weights@ == occurring_weights(freqs@, i as nat),
        decreases n - i,
    {
        if freqs[i] > 0 {
            symbols.push(i);
            weights.push(freqs[i] as u64);
        }
        i = i + 1;
    }
    let m = symbols.len();
    proof {
        lemma_positives_bound(freqs@, n as int);
    }
    if m == 0 {
        let mut zeros: Vec<u8> = Vec::new();
        let mut j: usize = 0;
        while j < n
            invariant
                j <= n,
                zeros@.len() == j,
                forall|x: int| 0 <= x < j ==> zeros@[x] == 0,
            decreases n - j,
        {
            zeros.push(0);
            j = j + 1;
        }
        assert(zeros@ =~= Seq::new(n as nat, |i: int| 0u8));
        return zeros;
    }
    if m == 1 {
        return single_code(freqs, symbols[0]);
    }
    let h = tree_lengths(n, &symbols, weights, max_len);
    if is_exact_code(freqs, &h, max_len) {
        h
    } else {
        let f = flat_lengths(freqs, max_len, m);
        assert forall|i: int| 0 <= i < f@.len() implies f@[i] <= max_len by {
            assert(freqs@[i] > 0 || freqs@[i] == 0);
        }
        f
    }
}

/// Two codes of one bit: one for `s`, the only symbol that occurs, and one
/// for the first other symbol.
fn single_code(freqs: &Vec<u32>, s: usize) -> (r: Vec<u8>)
    requires
        2 <= freqs@.len() <= 320,
        s < freqs@.len(),
        freqs@[s as int] > 0,
        positives(freqs@, freqs@.len() as int) == 1,
    ensures
        r@.len() == freqs@.len(),
        code_space_left(r@, MAX_CODE_LEN as nat) == 0,
        forall|i: int|
            0 <= i < r@.len() ==> #[trigger] r@[i] <= 1 && (freqs@[i] > 0 ==> r@[i] == 1),
        r@ == single_spec(freqs@, s as int),
{
    proof {
        crate::bits::lemma_pow2_small_values();
    }
    let n = freqs.len();
    let other: usize = if s == 0 {
        1
    } else {
        0
    };
    proof {
        lemma_only_positive(freqs@, freqs@.len() as int, s as int, other as int);
    }
    let mut r: Vec<u8> = Vec::new();
    let mut i: usize = 0;
    while i < n
        invariant
            i <= n == freqs@.len(),
            r@.len() == i,
            other < n,
            freqs@[other as int] == 0,
            code_count(r@, 1) == positives(freqs@, i as int) + if other < i {
                1int
            } else {
                0int
            },
            forall|j: int| 2 <= j <= 15 ==> #[trigger] code_count(r@, j) == 0,
            forall|j: int|
                0 <= j < i ==> #[trigger] r@[j] <= 1 && (freqs@[j] > 0 ==> r@[j] == 1),
            forall|j: int| 0 <= j < i ==> r@[j] == #[trigger] single_spec(freqs@, s as int)[j],
            other == if s == 0 {
                1usize
            } else {
                0usize
            },
        decreases n - i,
    {
        let ghost before = r@;
        let x: u8 = if freqs[i] > 0 || i == other {
            1
        } else {
            0
        };
        r.push(x);
        proof {
            assert forall|j: int| 0 <= j <= 15 implies #[trigger] code_count(r@, j)
                == code_count(before, j) + if x == j {
                1int
            } else {
                0int
            } by {
                lemma_code_count_push(before, x, j);
            }
            assert(r@[i as int] == x);
            assert(x == single_spec(freqs@, s as int)[i as int]);
            assert forall|j: int| 0 <= j < i + 1 implies r@[j] == #[trigger] single_spec(
                freqs@,
                s as int,
            )[j] by {
                if j < i {
                    assert(r@[j] == before[j]);
                }
            }
        }
        i = i + 1;
    }
    proof {
        lemma_two_length_space(r@, 1, 0, 2, MAX_CODE_LEN as nat);
    }
    r
}

/// With one positive frequency at `s`, every other one is 0.
proof fn lemma_only_positive(freqs: Seq<u32>, n: int, s: int, t: int)
    requires
        0 <= s < n,
        0 <= t < n,
        s != t,
        freqs[s] > 0,
        positives(freqs, n) <= 1,
    ensures
        freqs[t] == 0,
    decreases n,
{
    lemma_positives_bound(freqs, n - 1);
    if n - 1 != s && n - 1 != t {
        lemma_only_positive(freqs, n - 1, s, t);
    } else if n - 1 == s {
        lemma_no_positive(freqs, n - 1, t);
    } else {
        lemma_has_positive(freqs, n - 1, s);
    }
}

/// With no positive frequency below `n`, the one at `t` is 0.
proof fn lemma_no_positive(freqs: Seq<u32>, n: int, t: int)
    requires
        0 <= t < n,
        positives(freqs, n) <= 0,
    ensures
        freqs[t] == 0,
    decreases n,
{
    lemma_positives_bound(freqs, n - 1);
    if t < n - 1 {
        lemma_no_positive(freqs, n - 1, t);
    }
}

/// A positive frequency below `n` is counted.
pub proof fn lemma_has_positive(freqs: Seq<u32>, n: int, s: int)
    requires
        0 <= s < n,
        freqs[s] > 0,
    ensures
        positives(freqs, n) >= 1,
    decreases n,
{
    lemma_positives_bound(freqs, n - 1);
    if s < n - 1 {
        lemma_has_positive(freqs, n - 1, s);
    }
}

/// Whether `lengths` is a code for `freqs` as `exact_code` states.
fn is_exact_code(freqs: &Vec<u32>, lengths: &Vec<u8>, max_len: u8) -> (b: bool)
    requires
        lengths@.len() <= 320,
    ensures
        b == exact_code(freqs@, lengths@, max_len),
{
    let n = freqs.len();
    if lengths.len() != n {
        return false;
    }
    let mut i: usize = 0;
    while i < n
        invariant
            i <= n == freqs@.len() == lengths@.len(),
            forall|j: int|
                0 <= j < i ==> (#[trigger] freqs@[j] > 0 ==> 1 <= lengths@[j] <= max_len) && (
                freqs@[j] == 0 ==> lengths@[j] == 0),
        decreases n - i,
    {
        if freqs[i] > 0 {
            if lengths[i] < 1 || lengths[i] > max_len {
                assert(freqs@[i as int] > 0);
                return false;
            }
        } else if lengths[i] != 0 {
            assert(freqs@[i as int] == 0);
            return false;
        }
        i = i + 1;
    }
    let code = Huffman::build(lengths.as_slice());
    code.space_left() == 0
}


} // verus!
