//! The random choices the generator makes on integers: the order in which
//! generated points are emitted, and the point pairs drawn for distance
//! diagnostics. The random number generator itself is `rand`'s `StdRng`.

use rand::rngs::StdRng;
use rand::seq::SliceRandom;
use rand::Rng;
use crate::rows::{gather, gather_rows, gathered, row_views};
use vstd::prelude::*;

verus! {

#[verifier::external_type_specification]
#[verifier::external_body]
pub struct ExStdRng(StdRng);

/// The identity arrangement `0, 1, ..., n - 1`.
pub open spec fn identity_order(n: nat) -> Seq<usize> {
    Seq::new(n, |i: int| i as usize)
}

/// `order` lists every index below `n` exactly once.
pub open spec fn is_index_permutation(order: Seq<usize>, n: nat) -> bool {
    order.to_multiset() == identity_order(n).to_multiset()
}

/// `SliceRandom::shuffle` of rand: a Fisher–Yates pass that only swaps
/// elements, so the result holds the same elements with the same
/// multiplicities. Which arrangement comes out depends on the generator's
/// state and is not stated; nor is the generator's state afterwards.
#[verifier::external_body]
fn shuffle_in_place(items: &mut Vec<usize>, rng: &mut StdRng)
    ensures
        final(items)@.to_multiset() == old(items)@.to_multiset(),
{
    items.shuffle(rng);
}

/// `Rng::gen_range(0..n)` of rand for `usize`: a value drawn from `0..n`
/// (rand asserts that the range is not empty). Which value comes out depends
/// on the generator's state and is not stated.
#[verifier::external_body]
fn random_index(rng: &mut StdRng, n: usize) -> (i: usize)
    requires
        n > 0,
    ensures
        i < n,
{
    rng.gen_range(0..n)
}

/// A random arrangement of the indices `0..n`, as used to shuffle a
/// generated dataset: every index below `n` occurs exactly once.
pub fn shuffled_indices(n: usize, rng: &mut StdRng) -> (order: Vec<usize>)
    ensures
        is_index_permutation(order@, n as nat),
        order@.len() == n,
        order@.no_duplicates(),
        forall|k: int| 0 <= k < n ==> (#[trigger] order@[k]) < n,
{
    let mut order: Vec<usize> = Vec::new();
    let mut i: usize = 0;
    while i < n
        invariant
            i <= n,
            order@ == identity_order(i as nat),
        decreases n - i,
    {
        order.push(i);
        i = i + 1;
        assert(order@ =~= identity_order(i as nat));
    }
    let ghost ids = order@;
    shuffle_in_place(&mut order, rng);
    proof {
        broadcast use vstd::seq_lib::group_to_multiset_ensures;

        assert(order@.to_multiset().len() == order@.len());
        assert(ids.to_multiset().len() == ids.len());
        assert(ids.no_duplicates());
        ids.lemma_multiset_has_no_duplicates();
        order@.lemma_multiset_has_no_duplicates_conv();
        assert forall|k: int| 0 <= k < n implies (#[trigger] order@[k]) < n by {
            let x = order@[k];
            assert(order@.contains(x));
            assert(order@.to_multiset().count(x) > 0);
            assert(ids.to_multiset().count(x) > 0);
            assert(ids.contains(x));
        }
    }
    order
}

/// Shuffles the first `n_points` generated points together with their
/// labels: both come out in the same random arrangement of `0..n_points`,
/// so every point keeps its label.
pub fn shuffle_dataset<T: Copy>(
    n_points: usize,
    vectors: &[Vec<T>],
    labels: &[usize],
    rng: &mut StdRng,
) -> (shuffled: (Vec<Vec<T>>, Vec<usize>))
    requires
        n_points <= vectors@.len(),
        n_points <= labels@.len(),
    ensures
        exists|order: Seq<usize>|
            #![trigger gathered(labels@, order)]
            is_index_permutation(order, n_points as nat) && row_views(shuffled.0@) == gathered(
                row_views(vectors@),
                order,
            ) && shuffled.1@ == gathered(labels@, order),
{
    let order = shuffled_indices(n_points, rng);
    let out_vectors = gather_rows(vectors, order.as_slice());
    let out_labels = gather(labels, order.as_slice());
    proof {
        assert(gathered(labels@, order@) == out_labels@);
    }
    (out_vectors, out_labels)
}

/// One drawn pair of distinct points and whether they share a cluster.
#[derive(Clone, Copy, Debug, PartialEq, Eq)]
pub struct PointPair {
    pub first: usize,
    pub second: usize,
    pub same_cluster: bool,
}

/// The pairs kept from a sequence of index draws: draws of two equal indices
/// are dropped, the others kept in order with whether the two points carry
/// the same label.
pub open spec fn pairs_from_draws(draws: Seq<(usize, usize)>, labels: Seq<usize>) -> Seq<PointPair>
    decreases draws.len(),
{
    if draws.len() == 0 {
        Seq::empty()
    } else {
        let rest = pairs_from_draws(draws.drop_last(), labels);
        let (i, j) = draws.last();
        if i != j {
            rest.push(
                PointPair { first: i, second: j, same_cluster: labels[i as int] == labels[j as int] },
            )
        } else {
            rest
        }
    }
}

/// Keeps the draws of two distinct points, classified by label.
pub fn pairs_from_index_draws(draws: &[(usize, usize)], labels: &[usize]) -> (pairs: Vec<PointPair>)
    requires
        forall|k: int|
            0 <= k < draws@.len() ==> (#[trigger] draws@[k]).0 < labels@.len() && draws@[k].1
                < labels@.len(),
    ensures
        pairs@ == pairs_from_draws(draws@, labels@),
{
    let mut pairs: Vec<PointPair> = Vec::new();
    let mut k: usize = 0;
    while k < draws.len()
        invariant
            k <= draws@.len(),
            forall|t: int|
                0 <= t < draws@.len() ==> (#[trigger] draws@[t]).0 < labels@.len() && draws@[t].1
                    < labels@.len(),
            pairs@ == pairs_from_draws(draws@.take(k as int), labels@),
        decreases draws@.len() - k,
    {
        let (i, j) = draws[k];
        if i != j {
            let same = labels[i] == labels[j];
            pairs.push(PointPair { first: i, second: j, same_cluster: same });
        }
        proof {
            assert(draws@.take(k + 1).drop_last() =~= draws@.take(k as int));
        }
        k = k + 1;
    }
    assert(draws@.take(draws@.len() as int) =~= draws@);
    pairs
}

/// Every kept pair joins two distinct points below the bound, and is
/// classified by their labels.
pub proof fn lemma_pairs_from_draws_valid(draws: Seq<(usize, usize)>, labels: Seq<usize>, n: nat)
    requires
        forall|k: int| 0 <= k < draws.len() ==> (#[trigger] draws[k]).0 < n && draws[k].1 < n,
    ensures
        pairs_from_draws(draws, labels).len() <= draws.len(),
        forall|k: int|
            0 <= k < pairs_from_draws(draws, labels).len() ==> {
                let p = #[trigger] pairs_from_draws(draws, labels)[k];
                &&& p.first < n
                &&& p.second < n
                &&& p.first != p.second
                &&& p.same_cluster == (labels[p.first as int] == labels[p.second as int])
            },
    decreases draws.len(),
{
    if draws.len() > 0 {
        lemma_pairs_from_draws_valid(draws.drop_last(), labels, n);
    }
}

/// Draws `n_samples` times two point indices below `n_points` (first, then
/// second) and keeps the pairs of distinct points, classified by label.
pub fn sample_point_pairs(
    n_points: usize,
    labels: &[usize],
    n_samples: usize,
    rng: &mut StdRng,
) -> (pairs: Vec<PointPair>)
    requires
        n_samples > 0 ==> n_points <= labels@.len(),
        n_samples > 0 ==> n_points > 0,
    ensures
        exists|draws: Seq<(usize, usize)>|
            #![trigger pairs_from_draws(draws, labels@)]
            draws.len() == n_samples && (forall|k: int|
                0 <= k < draws.len() ==> (#[trigger] draws[k]).0 < n_points && draws[k].1
                    < n_points) && pairs@ == pairs_from_draws(draws, labels@),
        pairs@.len() <= n_samples,
        forall|k: int|
            0 <= k < pairs@.len() ==> {
                let p = #[trigger] pairs@[k];
                &&& p.first < n_points
                &&& p.second < n_points
                &&& p.first != p.second
                &&& p.same_cluster == (labels@[p.first as int] == labels@[p.second as int])
            },
{
    let mut draws: Vec<(usize, usize)> = Vec::new();
    let mut s: usize = 0;
    while s < n_samples
        invariant
            n_samples > 0 ==> n_points > 0,
            n_samples > 0 ==> n_points <= labels@.len(),
            s <= n_samples,
            draws@.len() == s,
            forall|k: int|
                0 <= k < draws@.len() ==> (#[trigger] draws@[k]).0 < n_points && draws@[k].1
                    < n_points,
        decreases n_samples - s,
    {
        let i = random_index(rng, n_points);
        let j = random_index(rng, n_points);
        draws.push((i, j));
        s = s + 1;
    }
    proof {
        if n_samples == 0 {
            assert(draws@.len() == 0);
        }
    }
    let pairs = pairs_from_index_draws(draws.as_slice(), labels);
    proof {
        lemma_pairs_from_draws_valid(draws@, labels@, n_points as nat);
    }
    pairs
}

} // verus!
