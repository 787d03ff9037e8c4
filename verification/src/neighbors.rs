//! Exact k-nearest-neighbour selection over distances given by their
//! IEEE-754 single-precision bit patterns.

use vstd::prelude::*;

verus! {

/// Position of an `f32` bit pattern in the IEEE-754 total order, as used by
/// `f32::total_cmp`: patterns with the sign bit clear keep their value,
/// patterns with the sign bit set map to `-(magnitude bits) - 1`, so that
/// every negative pattern sorts below every positive one and larger
/// magnitudes sort further from zero.
pub open spec fn order_key(bits: u32) -> int {
    if bits >= 0x8000_0000 {
        -((bits - 0x8000_0000) as int) - 1
    } else {
        bits as int
    }
}

/// Candidate `a` comes before candidate `b` when its distance is smaller in
/// the total order, ties going to the lower index (a stable sort by distance).
pub open spec fn ranks_before(bits: Seq<u32>, a: int, b: int) -> bool {
    ||| order_key(bits[a]) < order_key(bits[b])
    ||| (order_key(bits[a]) == order_key(bits[b]) && a < b)
}

pub open spec fn min_nat(a: nat, b: nat) -> nat {
    if a <= b { a } else { b }
}

/// `r` holds, in ascending rank, the `min(k, n)` candidates that come first
/// among `0..n`: exactly the first `k` entries of the candidates sorted
/// stably by distance.
pub open spec fn is_topk(bits: Seq<u32>, k: nat, r: Seq<usize>) -> bool {
    &&& r.len() == min_nat(k, bits.len())
    &&& forall|i: int| 0 <= i < r.len() ==> (#[trigger] r[i]) < bits.len()
    &&& forall|i: int, j: int|
        0 <= i < j < r.len() ==> ranks_before(bits, #[trigger] r[i] as int, #[trigger] r[j] as int)
    &&& forall|x: usize, i: int|
        #![trigger r.contains(x), r[i]]
        x < bits.len() && !r.contains(x) && 0 <= i < r.len() ==> ranks_before(
            bits,
            r[i] as int,
            x as int,
        )
}

/// The total-order key of an `f32` bit pattern.
pub fn total_order_key(bits: u32) -> (key: i32)
    ensures
        key as int == order_key(bits),
{
    if bits >= 0x8000_0000 {
        let magnitude: i32 = (bits - 0x8000_0000) as i32;
        -magnitude - 1
    } else {
        bits as i32
    }
}


/// `s` lists candidates in strictly ascending rank.
pub open spec fn sorted_by_rank(bits: Seq<u32>, s: Seq<usize>) -> bool {
    forall|i: int, j: int|
        0 <= i < j < s.len() ==> ranks_before(bits, #[trigger] s[i] as int, #[trigger] s[j] as int)
}

proof fn lemma_insert_keeps_rank_order(bits: Seq<u32>, s: Seq<usize>, p: int, c: usize)
    requires
        sorted_by_rank(bits, s),
        0 <= p <= s.len(),
        forall|t: int| 0 <= t < p ==> ranks_before(bits, #[trigger] s[t] as int, c as int),
        forall|t: int| p <= t < s.len() ==> ranks_before(bits, c as int, #[trigger] s[t] as int),
    ensures
        sorted_by_rank(bits, s.insert(p, c)),
        forall|x: usize| #[trigger] s.insert(p, c).contains(x) <==> (s.contains(x) || x == c),
{
    let t = s.insert(p, c);
    assert forall|i: int, j: int| 0 <= i < j < t.len() implies ranks_before(
        bits,
        #[trigger] t[i] as int,
        #[trigger] t[j] as int,
    ) by {
        if j < p {
            assert(t[i] == s[i] && t[j] == s[j]);
        } else if j == p {
            assert(t[i] == s[i]);
        } else if i < p {
            assert(t[i] == s[i] && t[j] == s[j - 1]);
        } else if i == p {
            assert(t[j] == s[j - 1]);
        } else {
            assert(t[i] == s[i - 1] && t[j] == s[j - 1]);
        }
    }
    assert forall|x: usize| #[trigger] t.contains(x) <==> (s.contains(x) || x == c) by {
        if t.contains(x) {
            let i = choose|i: int| 0 <= i < t.len() && t[i] == x;
            if i < p {
                assert(s[i] == x);
            } else if i > p {
                assert(s[i - 1] == x);
            }
        }
        if s.contains(x) {
            let i = choose|i: int| 0 <= i < s.len() && s[i] == x;
            if i < p {
                assert(t[i] == x);
            } else {
                assert(t[i + 1] == x);
            }
        }
        if x == c {
            assert(t[p] == x);
        }
    }
}

/// Where candidate `cand` goes among the ranked candidates `best`, all of
/// which have lower indices.
fn insertion_point(bits: &[u32], best: &Vec<usize>, cand: usize) -> (p: usize)
    requires
        cand < bits@.len(),
        sorted_by_rank(bits@, best@),
        forall|i: int| 0 <= i < best@.len() ==> (#[trigger] best@[i]) < cand,
    ensures
        p <= best@.len(),
        forall|t: int| 0 <= t < p ==> ranks_before(bits@, #[trigger] best@[t] as int, cand as int),
        forall|t: int|
            p <= t < best@.len() ==> ranks_before(bits@, cand as int, #[trigger] best@[t] as int),
{
    let key = total_order_key(bits[cand]);
    let mut p = best.len();
    while p > 0 && total_order_key(bits[best[p - 1]]) > key
        invariant
            cand < bits@.len(),
            key == order_key(bits@[cand as int]),
            p <= best@.len(),
            sorted_by_rank(bits@, best@),
            forall|i: int| 0 <= i < best@.len() ==> (#[trigger] best@[i]) < cand,
            forall|t: int|
                p <= t < best@.len() ==> ranks_before(bits@, cand as int, #[trigger] best@[t] as int),
        decreases p,
    {
        p = p - 1;
    }
    proof {
        if p > 0 {
            let last = best@[p - 1];
            assert(ranks_before(bits@, last as int, cand as int));
            assert forall|t: int| 0 <= t < p implies ranks_before(
                bits@,
                #[trigger] best@[t] as int,
                cand as int,
            ) by {
                if t < p - 1 {
                    assert(ranks_before(bits@, best@[t] as int, last as int));
                }
            }
        }
    }
    p
}

/// The `k` nearest candidates of one query, given the distances to all
/// candidates as `f32` bit patterns: the indices of the first `min(k, n)`
/// candidates after a stable sort by distance in the IEEE-754 total order,
/// nearest first.
pub fn topk_indices(dist_bits: &[u32], k: usize) -> (r: Vec<usize>)
    ensures
        is_topk(dist_bits@, k as nat, r@),
{
    let n = dist_bits.len();
    let mut best: Vec<usize> = Vec::new();
    let mut j: usize = 0;
    while j < n
        invariant
            n == dist_bits@.len(),
            j <= n,
            best@.len() == min_nat(k as nat, j as nat),
            forall|i: int| 0 <= i < best@.len() ==> (#[trigger] best@[i]) < j,
            sorted_by_rank(dist_bits@, best@),
            forall|x: usize|
                x < j && !(#[trigger] best@.contains(x)) ==> best@.len() == k && (k > 0
                    ==> ranks_before(dist_bits@, best@[k - 1] as int, x as int)),
        decreases n - j,
    {
        let len = best.len();
        let ghost old_best = best@;
        if len < k {
            let p = insertion_point(dist_bits, &best, j);
            proof {
                lemma_insert_keeps_rank_order(dist_bits@, old_best, p as int, j);
            }
            best.insert(p, j);
            proof {
                assert forall|x: usize| x < j + 1 && !(#[trigger] best@.contains(x)) implies false by {
                    if x < j {
                        assert(!old_best.contains(x));
                    }
                }
            }
        } else if k > 0 {
            let last = best[len - 1];
            let key_last = total_order_key(dist_bits[last]);
            let key = total_order_key(dist_bits[j]);
            if key < key_last {
                let p = insertion_point(dist_bits, &best, j);
                proof {
                    lemma_insert_keeps_rank_order(dist_bits@, old_best, p as int, j);
                }
                best.insert(p, j);
                let ghost grown = best@;
                assert(grown[k as int] == old_best[k - 1]);
                best.pop();
                proof {
                    assert(best@ =~= grown.subrange(0, k as int));
                    assert forall|x: usize|
                        x < j + 1 && !(#[trigger] best@.contains(x)) implies best@.len() == k && (k
                        > 0 ==> ranks_before(dist_bits@, best@[k - 1] as int, x as int)) by {
                        assert(ranks_before(dist_bits@, grown[k - 1] as int, grown[k as int] as int));
                        if grown.contains(x) {
                            let i = choose|i: int| 0 <= i < grown.len() && grown[i] == x;
                            if i < k {
                                assert(best@[i] == x);
                            }
                        } else {
                            assert(!old_best.contains(x));
                        }
                    }
                    assert forall|i: int| 0 <= i < best@.len() implies (#[trigger] best@[i]) < j + 1 by {
                        assert(best@[i] == grown[i]);
                    }
                }
            } else {
                proof {
                    assert forall|x: usize|
                        x < j + 1 && !(#[trigger] best@.contains(x)) implies best@.len() == k && (k
                        > 0 ==> ranks_before(dist_bits@, best@[k - 1] as int, x as int)) by {
                        if x == j {
                            assert(last < j);
                        }
                    }
                }
            }
        }
        j = j + 1;
    }
    proof {
        assert forall|x: usize, i: int|
            #![trigger best@.contains(x), best@[i]]
            x < n && !best@.contains(x) && 0 <= i < best@.len() implies ranks_before(
            dist_bits@,
            best@[i] as int,
            x as int,
        ) by {
            if i < k - 1 {
                assert(ranks_before(dist_bits@, best@[i] as int, best@[k - 1] as int));
            }
        }
    }
    best
}


proof fn lemma_topk_prefix_agrees(bits: Seq<u32>, k: nat, r1: Seq<usize>, r2: Seq<usize>, i: int)
    requires
        is_topk(bits, k, r1),
        is_topk(bits, k, r2),
        0 <= i <= r1.len(),
    ensures
        forall|j: int| 0 <= j < i ==> r1[j] == r2[j],
    decreases i,
{
    if i > 0 {
        let m = i - 1;
        lemma_topk_prefix_agrees(bits, k, r1, r2, m);
        let a = r1[m];
        let b = r2[m];
        lemma_topk_first_difference(bits, k, r1, r2, m);
        lemma_topk_first_difference(bits, k, r2, r1, m);
    }
}

/// Where two selections agree below position `m`, `r1[m]` does not rank
/// before `r2[m]`.
proof fn lemma_topk_first_difference(bits: Seq<u32>, k: nat, r1: Seq<usize>, r2: Seq<usize>, m: int)
    requires
        is_topk(bits, k, r1),
        is_topk(bits, k, r2),
        0 <= m < r1.len(),
        forall|j: int| 0 <= j < m ==> r1[j] == r2[j],
    ensures
        !ranks_before(bits, r1[m] as int, r2[m] as int),
{
    let a = r1[m];
    if !ranks_before(bits, r1[m] as int, r2[m] as int) {
    } else if r2.contains(a) {
        let j = choose|j: int| 0 <= j < r2.len() && r2[j] == a;
        if j < m {
            assert(r1[j] == a);
            assert(ranks_before(bits, r1[j] as int, r1[m] as int));
        } else if j > m {
            assert(ranks_before(bits, r2[m] as int, r2[j] as int));
        }
    } else {
        assert(ranks_before(bits, r2[m] as int, a as int));
    }
}

/// The selection is unique: two results that both satisfy `is_topk` for the
/// same distances and `k` are equal, so every call of `topk_indices` on the
/// same distances returns the same row.
pub proof fn lemma_topk_unique(bits: Seq<u32>, k: nat, r1: Seq<usize>, r2: Seq<usize>)
    requires
        is_topk(bits, k, r1),
        is_topk(bits, k, r2),
    ensures
        r1 == r2,
{
    lemma_topk_prefix_agrees(bits, k, r1, r2, r1.len() as int);
    assert(r1 =~= r2);
}

/// Distinct bit patterns never tie in the total order, so the ranking of
/// candidates is strict and ties in distance are exactly equal patterns.
pub proof fn lemma_order_key_injective(a: u32, b: u32)
    ensures
        order_key(a) == order_key(b) ==> a == b,
        a < 0x8000_0000 && b < 0x8000_0000 ==> (order_key(a) < order_key(b) <==> a < b),
        a >= 0x8000_0000 && b < 0x8000_0000 ==> order_key(a) < order_key(b),
{
}

} // verus!
