//! Ranking of candidate tracks by an integer key (smaller is better), with
//! ties kept in their original order, and selection of the best few.

use vstd::prelude::*;

verus! {

/// Index `x` comes strictly before index `y`: a smaller key, or an equal key
/// and an earlier position. This is the order a stable ascending sort gives.
pub open spec fn ranks_before(keys: Seq<u64>, x: int, y: int) -> bool {
    keys[x] < keys[y] || (keys[x] == keys[y] && x < y)
}

/// Every entry of `r` is an index into `keys`, and no index occurs twice.
pub open spec fn distinct_indices(keys: Seq<u64>, r: Seq<usize>) -> bool {
    &&& forall|i: int| 0 <= i < r.len() ==> #[trigger] r[i] < keys.len()
    &&& forall|i: int, j: int| 0 <= i < j < r.len() ==> r[i] != r[j]
}

/// Along `r` the indices come in the order of `ranks_before`.
pub open spec fn in_rank_order(keys: Seq<u64>, r: Seq<usize>) -> bool {
    forall|i: int, j: int|
        0 <= i < j < r.len() ==> ranks_before(keys, #[trigger] r[i] as int, #[trigger] r[j] as int)
}

/// `r` lists every index of `keys` once, best first: the result of a stable
/// ascending sort of the positions by key.
pub open spec fn is_ranking(keys: Seq<u64>, r: Seq<usize>) -> bool {
    &&& r.len() == keys.len()
    &&& distinct_indices(keys, r)
    &&& forall|x: usize| x < keys.len() ==> #[trigger] r.contains(x)
    &&& in_rank_order(keys, r)
}

/// `r` holds the `k` best indices of `keys` (all of them when there are
/// fewer), best first: every index left out ranks after every index taken.
pub open spec fn is_best(keys: Seq<u64>, k: nat, r: Seq<usize>) -> bool {
    &&& r.len() == if k < keys.len() { k } else { keys.len() }
    &&& distinct_indices(keys, r)
    &&& in_rank_order(keys, r)
    &&& forall|i: int, x: usize|
        #![trigger r[i], r.contains(x)]
        0 <= i < r.len() && x < keys.len() && !r.contains(x)
            ==> ranks_before(keys, r[i] as int, x as int)
}

/// The bit pattern of a binary64 floating-point number is a NaN: all
/// exponent bits set and a fraction that is not zero.
pub open spec fn is_nan_pattern(bits: u64) -> bool {
    &&& (bits >> 52u64) & 0x7FFu64 == 0x7FFu64
    &&& bits & 0x000F_FFFF_FFFF_FFFFu64 != 0
}

/// The magnitude bits of a binary64 pattern (all but the sign).
pub open spec fn magnitude_bits(bits: u64) -> u64 {
    bits & 0x7FFF_FFFF_FFFF_FFFFu64
}

/// The sign bit of a binary64 pattern is set.
pub open spec fn sign_bit_set(bits: u64) -> bool {
    bits >> 63u64 == 1u64
}

/// The magnitude bits of a binary64 pattern, negated when the sign bit is
/// set. For patterns that are not NaN, binary64 values compare as these
/// integers do (the two zeros both map to 0).
pub open spec fn signed_magnitude(bits: u64) -> int {
    if sign_bit_set(bits) {
        -(magnitude_bits(bits) as int)
    } else {
        magnitude_bits(bits) as int
    }
}

/// The ranking key of a distance, given by its binary64 bit pattern: the
/// signed magnitude shifted to be non-negative, so that keys compare as the
/// distances do. A NaN has no key.
pub fn distance_key(bits: u64) -> (k: Option<u64>)
    ensures
        k is None <==> is_nan_pattern(bits),
        k matches Some(v) ==> v as int == key_of_pattern(bits),
        k is None <==> ((bits >> 52u64) & 0x7FFu64 == 0x7FFu64 && bits & 0x000F_FFFF_FFFF_FFFFu64 != 0),
        k matches Some(v) ==> v as int == 0x8000_0000_0000_0000int + if bits >> 63u64 == 1u64 {
            -((bits & 0x7FFF_FFFF_FFFF_FFFFu64) as int)
        } else {
            (bits & 0x7FFF_FFFF_FFFF_FFFFu64) as int
        },
{
    let exponent = (bits >> 52u64) & 0x7FFu64;
    let fraction = bits & 0x000F_FFFF_FFFF_FFFFu64;
    if exponent == 0x7FFu64 && fraction != 0 {
        return None;
    }
    let magnitude = bits & 0x7FFF_FFFF_FFFF_FFFFu64;
    assert(magnitude <= 0x7FFF_FFFF_FFFF_FFFFu64) by (bit_vector)
        requires
            magnitude == bits & 0x7FFF_FFFF_FFFF_FFFFu64,
    ;
    if bits >> 63u64 == 1u64 {
        Some(0x8000_0000_0000_0000u64 - magnitude)
    } else {
        Some(0x8000_0000_0000_0000u64 + magnitude)
    }
}

/// Only NaN lacks a key: a pattern whose exponent bits are not all set (a
/// finite number), or whose fraction is zero (an infinity), is not a NaN.
pub proof fn lemma_only_nan_lacks_key(bits: u64)
    ensures
        (bits >> 52u64) & 0x7FFu64 != 0x7FFu64 ==> !is_nan_pattern(bits),
        bits & 0x000F_FFFF_FFFF_FFFFu64 == 0 ==> !is_nan_pattern(bits),
        is_nan_pattern(bits) ==> (bits >> 52u64) & 0x7FFu64 == 0x7FFu64 && bits & 0x000F_FFFF_FFFF_FFFFu64 != 0,
{
}

/// The key value of a binary64 pattern.
pub open spec fn key_of_pattern(bits: u64) -> int {
    0x8000_0000_0000_0000int + signed_magnitude(bits)
}

/// The IEEE 754 order of two binary64 numbers, read off their patterns: the
/// two zeros are equal, a negative number is below a positive one, positive
/// numbers order as their magnitude bits, negative ones the other way round.
pub open spec fn binary64_less(a: u64, b: u64) -> bool {
    let ma = magnitude_bits(a);
    let mb = magnitude_bits(b);
    if ma == 0 && mb == 0 {
        false
    } else if sign_bit_set(a) != sign_bit_set(b) {
        sign_bit_set(a)
    } else if sign_bit_set(a) {
        mb < ma
    } else {
        ma < mb
    }
}

/// Two binary64 patterns denote the same number: they are equal, or both
/// are zeros.
pub open spec fn binary64_equal(a: u64, b: u64) -> bool {
    a == b || (magnitude_bits(a) == 0 && magnitude_bits(b) == 0)
}

/// Distances that are not NaN compare as their keys: one is below the other
/// in the IEEE 754 order exactly when its key is smaller, and two denote the
/// same number exactly when their keys are equal.
pub proof fn lemma_distance_key_preserves_order(a: u64, b: u64)
    requires
        !is_nan_pattern(a),
        !is_nan_pattern(b),
    ensures
        (key_of_pattern(a) < key_of_pattern(b)) == binary64_less(a, b),
        (key_of_pattern(a) == key_of_pattern(b)) == binary64_equal(a, b),
{
    assert(a >> 63u64 <= 1u64 && b >> 63u64 <= 1u64) by (bit_vector);
    assert((a >> 63u64 == b >> 63u64 && a & 0x7FFF_FFFF_FFFF_FFFFu64 == b & 0x7FFF_FFFF_FFFF_FFFFu64) ==> a == b)
        by (bit_vector);
}

fn comes_before(keys: &[u64], x: usize, y: usize) -> (b: bool)
    requires
        x < keys@.len(),
        y < keys@.len(),
    ensures
        b == ranks_before(keys@, x as int, y as int),
{
    keys[x] < keys[y] || (keys[x] == keys[y] && x < y)
}

/// `r` lists each position in `lo..hi` once, in the order of `ranks_before`.
pub open spec fn ranks_segment(keys: Seq<u64>, lo: int, hi: int, r: Seq<usize>) -> bool {
    &&& r.len() == hi - lo
    &&& forall|t: int| 0 <= t < r.len() ==> lo <= #[trigger] r[t] < hi
    &&& forall|x: usize| lo <= x < hi ==> #[trigger] r.contains(x)
    &&& in_rank_order(keys, r)
}

proof fn lemma_rank_order_distinct(keys: Seq<u64>, r: Seq<usize>)
    requires
        in_rank_order(keys, r),
    ensures
        forall|i: int, j: int| 0 <= i < j < r.len() ==> r[i] != r[j],
{
    assert forall|i: int, j: int| 0 <= i < j < r.len() implies r[i] != r[j] by {
        assert(ranks_before(keys, r[i] as int, r[j] as int));
    }
}

/// Merges two ranked neighbouring segments into one ranked segment; on a
/// tie the left (earlier) position comes first.
fn merge_ranked(keys: &[u64], left: Vec<usize>, right: Vec<usize>, lo: usize, mid: usize, hi: usize) -> (out: Vec<usize>)
    requires
        lo <= mid <= hi <= keys@.len(),
        ranks_segment(keys@, lo as int, mid as int, left@),
        ranks_segment(keys@, mid as int, hi as int, right@),
    ensures
        ranks_segment(keys@, lo as int, hi as int, out@),
{
    let ghost ks = keys@;
    let mut out: Vec<usize> = Vec::new();
    let mut i: usize = 0;
    let mut j: usize = 0;
    while i < left.len() || j < right.len()
        invariant
            ks == keys@,
            lo <= mid <= hi <= ks.len(),
            ranks_segment(ks, lo as int, mid as int, left@),
            ranks_segment(ks, mid as int, hi as int, right@),
            i <= left@.len(),
            j <= right@.len(),
            out@.len() == i + j,
            forall|t: int| 0 <= t < out@.len() ==> lo <= #[trigger] out@[t] < hi,
            forall|u: int| 0 <= u < i ==> out@.contains(#[trigger] left@[u]),
            forall|v: int| 0 <= v < j ==> out@.contains(#[trigger] right@[v]),
            in_rank_order(ks, out@),
            forall|t: int, u: int|
                0 <= t < out@.len() && i <= u < left@.len() ==> ranks_before(ks, #[trigger] out@[t] as int, #[trigger] left@[u] as int),
            forall|t: int, v: int|
                0 <= t < out@.len() && j <= v < right@.len() ==> ranks_before(ks, #[trigger] out@[t] as int, #[trigger] right@[v] as int),
        decreases left@.len() + right@.len() - i - j,
    {
        let take_left = if i == left.len() {
            false
        } else if j == right.len() {
            true
        } else {
            comes_before(keys, left[i], right[j])
        };
        let ghost before = out@;
        if take_left {
            let x = left[i];
            proof {
                assert forall|v: int| j <= v < right@.len() implies ranks_before(ks, x as int, #[trigger] right@[v] as int) by {
                    if v > j {
                        assert(ranks_before(ks, right@[j as int] as int, right@[v] as int));
                    }
                }
                assert forall|u: int| i + 1 <= u < left@.len() implies ranks_before(ks, x as int, #[trigger] left@[u] as int) by {
                    assert(ranks_before(ks, left@[i as int] as int, left@[u] as int));
                }
            }
            out.push(x);
            i = i + 1;
        } else {
            let x = right[j];
            proof {
                if i < left@.len() {
                    assert(left@[i as int] < mid <= right@[j as int]);
                    assert(ranks_before(ks, x as int, left@[i as int] as int));
                }
                assert forall|u: int| i <= u < left@.len() implies ranks_before(ks, x as int, #[trigger] left@[u] as int) by {
                    if u > i {
                        assert(ranks_before(ks, left@[i as int] as int, left@[u] as int));
                    }
                }
                assert forall|v: int| j + 1 <= v < right@.len() implies ranks_before(ks, x as int, #[trigger] right@[v] as int) by {
                    assert(ranks_before(ks, right@[j as int] as int, right@[v] as int));
                }
            }
            out.push(x);
            j = j + 1;
        }
        proof {
            let x = out@[out@.len() - 1];
            assert(out@ == before.push(x));
            assert forall|t: int| 0 <= t < before.len() implies ranks_before(ks, #[trigger] before[t] as int, x as int) by {
                if take_left {
                    assert(ranks_before(ks, before[t] as int, left@[i - 1] as int));
                } else {
                    assert(ranks_before(ks, before[t] as int, right@[j - 1] as int));
                }
            }
            assert forall|a: int, b: int| 0 <= a < b < out@.len() implies ranks_before(ks, #[trigger] out@[a] as int, #[trigger] out@[b] as int) by {
                if b < before.len() {
                    assert(out@[a] == before[a] && out@[b] == before[b]);
                } else {
                    assert(out@[a] == before[a]);
                }
            }
            assert forall|u: int| 0 <= u < i implies out@.contains(#[trigger] left@[u]) by {
                if take_left && u == i - 1 {
                    assert(out@[out@.len() - 1] == left@[u]);
                } else {
                    assert(before.contains(left@[u]));
                    let t = choose|t: int| 0 <= t < before.len() && before[t] == left@[u];
                    assert(out@[t] == left@[u]);
                }
            }
            assert forall|v: int| 0 <= v < j implies out@.contains(#[trigger] right@[v]) by {
                if !take_left && v == j - 1 {
                    assert(out@[out@.len() - 1] == right@[v]);
                } else {
                    assert(before.contains(right@[v]));
                    let t = choose|t: int| 0 <= t < before.len() && before[t] == right@[v];
                    assert(out@[t] == right@[v]);
                }
            }
        }
    }
    proof {
        assert forall|x: usize| lo <= x < hi implies #[trigger] out@.contains(x) by {
            if x < mid {
                assert(left@.contains(x));
                let u = choose|u: int| 0 <= u < left@.len() && left@[u] == x;
                assert(out@.contains(left@[u]));
            } else {
                assert(right@.contains(x));
                let v = choose|v: int| 0 <= v < right@.len() && right@[v] == x;
                assert(out@.contains(right@[v]));
            }
        }
    }
    out
}

/// The positions `lo..hi` of `keys`, ranked (merge sort).
fn rank_segment(keys: &[u64], lo: usize, hi: usize) -> (r: Vec<usize>)
    requires
        lo <= hi <= keys@.len(),
    ensures
        ranks_segment(keys@, lo as int, hi as int, r@),
    decreases hi - lo,
{
    if hi - lo <= 1 {
        let mut r: Vec<usize> = Vec::new();
        if hi - lo == 1 {
            r.push(lo);
            assert forall|x: usize| lo <= x < hi implies #[trigger] r@.contains(x) by {
                assert(r@[0] == x);
            }
        }
        r
    } else {
        let mid = lo + (hi - lo) / 2;
        let left = rank_segment(keys, lo, mid);
        let right = rank_segment(keys, mid, hi);
        merge_ranked(keys, left, right, lo, mid, hi)
    }
}

/// Orders the positions of `keys` by ascending key; equal keys keep their
/// order of appearance.
pub fn rank_by_key(keys: &[u64]) -> (r: Vec<usize>)
    ensures
        is_ranking(keys@, r@),
        r@.len() == keys@.len(),
        forall|a: int, b: int|
            #![trigger r@[a], r@[b]]
            0 <= a < b < r@.len() ==> keys@[r@[a] as int] < keys@[r@[b] as int] || (keys@[r@[a] as int]
                == keys@[r@[b] as int] && r@[a] < r@[b]),
        forall|a: int, b: int|
            #![trigger r@[a], r@[b]]
            0 <= a < r@.len() && 0 <= b < r@.len() && keys@[r@[a] as int] < keys@[r@[b] as int] ==> a < b,
{
    let r = rank_segment(keys, 0, keys.len());
    proof {
        lemma_rank_order_distinct(keys@, r@);
        lemma_ranking_orders_by_key(keys@, r@);
    }
    r
}

/// In a ranking no position is listed twice; a position with a smaller key
/// (compared as a whole `u64`) is always listed first, and positions with
/// equal keys keep their order of appearance.
pub proof fn lemma_ranking_orders_by_key(keys: Seq<u64>, r: Seq<usize>)
    requires
        is_ranking(keys, r),
    ensures
        r.len() == keys.len(),
        forall|a: int| 0 <= a < r.len() ==> #[trigger] r[a] < keys.len(),
        forall|a: int, b: int| #![trigger r[a], r[b]] 0 <= a < b < r.len() ==> r[a] != r[b],
        forall|a: int, b: int|
            #![trigger r[a], r[b]]
            0 <= a < b < r.len() ==> keys[r[a] as int] < keys[r[b] as int] || (keys[r[a] as int]
                == keys[r[b] as int] && r[a] < r[b]),
        forall|a: int, b: int|
            #![trigger r[a], r[b]]
            0 <= a < r.len() && 0 <= b < r.len() && keys[r[a] as int] < keys[r[b] as int] ==> a < b,
{
    assert forall|a: int, b: int|
        #![trigger r[a], r[b]]
        0 <= a < b < r.len() implies keys[r[a] as int] < keys[r[b] as int] || (keys[r[a] as int]
            == keys[r[b] as int] && r[a] < r[b]) by {
        assert(ranks_before(keys, r[a] as int, r[b] as int));
    }
    assert forall|a: int, b: int|
        #![trigger r[a], r[b]]
        0 <= a < r.len() && 0 <= b < r.len() && keys[r[a] as int] < keys[r[b] as int] implies a < b by {
        if b < a {
            assert(ranks_before(keys, r[b] as int, r[a] as int));
        }
    }
}

/// The best `k` positions: as many as asked for (or all), each listed once,
/// smaller keys first with ties in order of appearance, and no position left
/// out has a smaller key than one taken (on equal keys, the earlier position
/// is taken).
pub proof fn lemma_best_dominates(keys: Seq<u64>, k: nat, r: Seq<usize>)
    requires
        is_best(keys, k, r),
    ensures
        r.len() == if k < keys.len() { k } else { keys.len() },
        forall|a: int| 0 <= a < r.len() ==> #[trigger] r[a] < keys.len(),
        forall|a: int, b: int| #![trigger r[a], r[b]] 0 <= a < b < r.len() ==> r[a] != r[b],
        forall|a: int, b: int|
            #![trigger r[a], r[b]]
            0 <= a < b < r.len() ==> keys[r[a] as int] < keys[r[b] as int] || (keys[r[a] as int]
                == keys[r[b] as int] && r[a] < r[b]),
        forall|a: int, x: usize|
            #![trigger r[a], keys[x as int]]
            0 <= a < r.len() && x < keys.len() && (forall|b: int| 0 <= b < r.len() ==> r[b] != x)
                ==> keys[r[a] as int] < keys[x as int] || (keys[r[a] as int] == keys[x as int] && r[a] < x),
{
    assert forall|a: int, b: int|
        #![trigger r[a], r[b]]
        0 <= a < b < r.len() implies keys[r[a] as int] < keys[r[b] as int] || (keys[r[a] as int]
            == keys[r[b] as int] && r[a] < r[b]) by {
        assert(ranks_before(keys, r[a] as int, r[b] as int));
    }
    assert forall|a: int, x: usize|
        #![trigger r[a], keys[x as int]]
        0 <= a < r.len() && x < keys.len() && (forall|b: int| 0 <= b < r.len() ==> r[b] != x)
            implies keys[r[a] as int] < keys[x as int] || (keys[r[a] as int] == keys[x as int] && r[a] < x) by {
        if r.contains(x) {
            let b = choose|b: int| 0 <= b < r.len() && r[b] == x;
            assert(r[b] != x);
        }
        assert(ranks_before(keys, r[a] as int, x as int));
    }
}

/// The `k` best positions of `keys` (all of them when there are fewer),
/// best first, ties in order of appearance.
pub fn take_best(keys: &[u64], k: usize) -> (r: Vec<usize>)
    ensures
        is_best(keys@, k as nat, r@),
        r@.len() == if k < keys@.len() { k as int } else { keys@.len() as int },
        forall|a: int| 0 <= a < r@.len() ==> #[trigger] r@[a] < keys@.len(),
        forall|a: int, b: int|
            #![trigger r@[a], r@[b]]
            0 <= a < b < r@.len() ==> keys@[r@[a] as int] < keys@[r@[b] as int] || (keys@[r@[a] as int]
                == keys@[r@[b] as int] && r@[a] < r@[b]),
        forall|a: int, x: usize|
            #![trigger r@[a], keys@[x as int]]
            0 <= a < r@.len() && x < keys@.len() && (forall|b: int| 0 <= b < r@.len() ==> r@[b] != x)
                ==> keys@[r@[a] as int] < keys@[x as int] || (keys@[r@[a] as int] == keys@[x as int] && r@[a] < x),
{
    let ranked = rank_by_key(keys);
    let m: usize = if k < keys.len() { k } else { keys.len() };
    let mut r: Vec<usize> = Vec::new();
    for i in 0..m
        invariant
            m <= ranked@.len(),
            is_ranking(keys@, ranked@),
            r@ =~= ranked@.take(i as int),
    {
        r.push(ranked[i]);
    }
    proof {
        assert(r@ =~= ranked@.take(m as int));
        assert forall|i: int, x: usize|
            #![trigger r@[i], r@.contains(x)]
            0 <= i < r@.len() && x < keys@.len() && !r@.contains(x)
                implies ranks_before(keys@, r@[i] as int, x as int) by {
            assert(ranked@.contains(x));
            let p = choose|p: int| 0 <= p < ranked@.len() && ranked@[p] == x;
            if p < m {
                assert(r@[p] == x);
            }
            assert(ranked@[i] == r@[i]);
        }
        lemma_best_dominates(keys@, k as nat, r@);
    }
    r
}

/// The `k` best positions are exactly the first `k` of the full
/// ranking. Both are determined by the keys alone: no two different lists
/// meet either contract.
pub proof fn lemma_best_is_ranking_prefix(keys: Seq<u64>, k: nat, ranked: Seq<usize>, best: Seq<usize>)
    requires
        is_ranking(keys, ranked),
        is_best(keys, k, best),
    ensures
        best == ranked.take(best.len() as int),
{
    assert forall|i: int| 0 <= i < best.len() implies #[trigger] best[i] == ranked[i] by {
        lemma_best_agrees_up_to(keys, k, ranked, best, i);
    }
    assert(best =~= ranked.take(best.len() as int));
}

proof fn lemma_best_agrees_up_to(keys: Seq<u64>, k: nat, ranked: Seq<usize>, best: Seq<usize>, n: int)
    requires
        is_ranking(keys, ranked),
        is_best(keys, k, best),
        0 <= n < best.len(),
    ensures
        forall|i: int| 0 <= i <= n ==> #[trigger] best[i] == ranked[i],
    decreases n,
{
    if n > 0 {
        lemma_best_agrees_up_to(keys, k, ranked, best, n - 1);
    }
    let b = best[n];
    let r = ranked[n];
    if b != r {
        // `b` sits in `ranked` after position `n`.
        assert(ranked.contains(b));
        let q = choose|q: int| 0 <= q < ranked.len() && ranked[q] == b;
        if q < n {
            assert(best[q] == ranked[q]);
        }
        assert(q > n);
        assert(ranks_before(keys, r as int, b as int));
        if best.contains(r) {
            let p = choose|p: int| 0 <= p < best.len() && best[p] == r;
            if p < n {
                assert(best[p] == ranked[p]);
            }
            assert(p > n);
            assert(ranks_before(keys, b as int, r as int));
        } else {
            assert(ranks_before(keys, best[n] as int, r as int));
        }
    }
}

} // verus!
