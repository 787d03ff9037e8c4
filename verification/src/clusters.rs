//! How points are spread over clusters, how clusters are grouped under
//! superclusters, and which label each generated point carries.

use crate::rows::{gathered, lemma_gather_permutation_keeps_items};
use crate::sampling::is_index_permutation;
use vstd::prelude::*;

verus! {

/// Sum of a sequence of sizes.
pub open spec fn total_of(s: Seq<usize>) -> int
    decreases s.len(),
{
    if s.len() == 0 {
        0
    } else {
        total_of(s.drop_last()) + s.last()
    }
}

/// What is left to hand out after `i` clusters of the uneven layout have
/// each taken half (rounded down) of what remained before them.
pub open spec fn remaining_after(total: nat, i: nat) -> nat
    decreases i,
{
    if i == 0 {
        total
    } else {
        let r = remaining_after(total, (i - 1) as nat);
        (r - r / 2) as nat
    }
}

/// Size of cluster `i` of `n` in the uneven layout: half of what remains,
/// the last cluster taking everything that is left.
pub open spec fn uneven_size(total: nat, n: nat, i: nat) -> nat {
    if i + 1 == n {
        remaining_after(total, i)
    } else {
        remaining_after(total, i) / 2
    }
}

/// Size of cluster `i` of `n` in the even layout: `total / n`, plus one for
/// the first `total % n` clusters.
pub open spec fn even_size(total: nat, n: nat, i: nat) -> nat {
    total / n + if i < total % n { 1nat } else { 0nat }
}

pub open spec fn cluster_size(total: nat, n: nat, even: bool, i: nat) -> nat {
    if even {
        even_size(total, n, i)
    } else {
        uneven_size(total, n, i)
    }
}

proof fn lemma_total_of_push(s: Seq<usize>, x: usize)
    ensures
        total_of(s.push(x)) == total_of(s) + x,
{
    assert(s.push(x).drop_last() =~= s);
}

proof fn lemma_total_of_take_step(s: Seq<usize>, i: int)
    requires
        0 <= i < s.len(),
    ensures
        total_of(s.take(i + 1)) == total_of(s.take(i)) + s[i],
{
    assert(s.take(i + 1).drop_last() =~= s.take(i));
}

proof fn lemma_uneven_prefix(total: nat, sizes: Seq<usize>, i: int)
    requires
        0 <= i < sizes.len(),
        forall|t: int|
            0 <= t < sizes.len() ==> (#[trigger] sizes[t]) as nat == uneven_size(
                total,
                sizes.len(),
                t as nat,
            ),
    ensures
        total_of(sizes.take(i)) + remaining_after(total, i as nat) == total,
    decreases i,
{
    if i == 0 {
        assert(sizes.take(0) =~= Seq::<usize>::empty());
    } else {
        lemma_uneven_prefix(total, sizes, i - 1);
        lemma_total_of_take_step(sizes, i - 1);
    }
}

/// The uneven layout, stated over the sizes themselves: every cluster but
/// the last takes half, rounded down, of what the earlier clusters left of
/// `total`, and the last cluster takes all that is left, so the sizes sum to
/// `total`.
pub proof fn lemma_uneven_sizes_halve_what_remains(total: nat, sizes: Seq<usize>)
    requires
        sizes.len() > 0,
        forall|i: int|
            0 <= i < sizes.len() ==> (#[trigger] sizes[i]) as nat == uneven_size(
                total,
                sizes.len(),
                i as nat,
            ),
    ensures
        forall|i: int|
            0 <= i < sizes.len() - 1 ==> (#[trigger] sizes[i]) as int == (total - total_of(
                sizes.take(i),
            )) / 2,
        sizes[sizes.len() - 1] == total - total_of(sizes.take(sizes.len() - 1)),
        total_of(sizes) == total,
{
    assert forall|i: int| 0 <= i < sizes.len() - 1 implies (#[trigger] sizes[i]) as int == (total
        - total_of(sizes.take(i))) / 2 by {
        lemma_uneven_prefix(total, sizes, i);
    }
    let last = sizes.len() - 1;
    lemma_uneven_prefix(total, sizes, last);
    lemma_total_of_take_step(sizes, last);
    assert(sizes.take(last + 1) =~= sizes);
}

proof fn lemma_even_prefix(total: nat, sizes: Seq<usize>, i: int)
    requires
        sizes.len() > 0,
        0 <= i <= sizes.len(),
        forall|t: int|
            0 <= t < sizes.len() ==> (#[trigger] sizes[t]) as nat == even_size(
                total,
                sizes.len(),
                t as nat,
            ),
    ensures
        total_of(sizes.take(i)) == (total / sizes.len()) * i + if i < total % sizes.len() {
            i
        } else {
            (total % sizes.len()) as int
        },
    decreases i,
{
    let base = total / sizes.len();
    if i == 0 {
        assert(sizes.take(0) =~= Seq::<usize>::empty());
        assert(base * 0 == 0) by (nonlinear_arith);
    } else {
        lemma_even_prefix(total, sizes, i - 1);
        lemma_total_of_take_step(sizes, i - 1);
        assert(base * i == base * (i - 1) + base) by (nonlinear_arith);
    }
}

/// The even layout, stated over the sizes themselves: they sum to `total`,
/// never grow from one cluster to a later one, and differ by at most one.
pub proof fn lemma_even_sizes_sum_and_balance(total: nat, sizes: Seq<usize>)
    requires
        sizes.len() > 0,
        forall|i: int|
            0 <= i < sizes.len() ==> (#[trigger] sizes[i]) as nat == even_size(
                total,
                sizes.len(),
                i as nat,
            ),
    ensures
        total_of(sizes) == total,
        forall|i: int, j: int|
            0 <= i <= j < sizes.len() ==> #[trigger] sizes[j] <= #[trigger] sizes[i] <= sizes[j] + 1,
{
    let n = sizes.len();
    lemma_even_prefix(total, sizes, n as int);
    assert(sizes.take(n as int) =~= sizes);
    let base = total / n;
    let rem = total % n;
    assert(base * n + rem == total && rem < n) by (nonlinear_arith)
        requires
            base == total / n,
            rem == total % n,
            n > 0,
    ;
}

/// Splits `total` points over `n_clusters` clusters, evenly (sizes differ by
/// at most one, larger ones first) or unevenly (each cluster takes half of
/// what is left, the last one the rest).
pub fn assign_cluster_sizes(total: usize, n_clusters: usize, even: &bool) -> (sizes: Vec<usize>)
    requires
        *even ==> n_clusters > 0,
    ensures
        sizes@.len() == n_clusters,
        forall|i: int|
            0 <= i < n_clusters ==> (#[trigger] sizes@[i]) as nat == cluster_size(
                total as nat,
                n_clusters as nat,
                *even,
                i as nat,
            ),
        n_clusters > 0 ==> total_of(sizes@) == total,
        !*even ==> forall|i: int|
            0 <= i < n_clusters - 1 ==> (#[trigger] sizes@[i]) as int == (total - total_of(
                sizes@.take(i),
            )) / 2,
        !*even && n_clusters > 0 ==> sizes@[n_clusters - 1] == total - total_of(
            sizes@.take(n_clusters - 1),
        ),
        *even ==> forall|i: int, j: int|
            0 <= i <= j < n_clusters ==> #[trigger] sizes@[j] <= #[trigger] sizes@[i] <= sizes@[j]
                + 1,
{
    if !*even {
        let mut sizes: Vec<usize> = Vec::new();
        let mut remaining: usize = total;
        let mut i: usize = 0;
        while i < n_clusters
            invariant
                !*even,
                i <= n_clusters,
                sizes@.len() == i,
                i < n_clusters ==> remaining as nat == remaining_after(total as nat, i as nat),
                total_of(sizes@) + remaining == total,
                forall|t: int|
                    0 <= t < i ==> (#[trigger] sizes@[t]) as nat == uneven_size(
                        total as nat,
                        n_clusters as nat,
                        t as nat,
                    ),
                i == n_clusters && n_clusters > 0 ==> remaining == 0,
            decreases n_clusters - i,
        {
            let size = if i == n_clusters - 1 {
                remaining
            } else {
                remaining / 2
            };
            proof {
                lemma_total_of_push(sizes@, size);
            }
            sizes.push(size);
            remaining = remaining - size;
            i = i + 1;
        }
        proof {
            if n_clusters > 0 {
                lemma_uneven_sizes_halve_what_remains(total as nat, sizes@);
            }
        }
        sizes
    } else {
        let base = total / n_clusters;
        let rem = total % n_clusters;
        let mut sizes: Vec<usize> = Vec::new();
        let mut i: usize = 0;
        proof {
            assert(base * n_clusters + rem == total) by (nonlinear_arith)
                requires
                    base == total / n_clusters,
                    rem == total % n_clusters,
                    n_clusters > 0,
            ;
            assert(base <= total) by (nonlinear_arith)
                requires
                    base * n_clusters + rem == total,
                    n_clusters > 0,
                    rem >= 0,
                    base >= 0,
            ;
        }
        while i < n_clusters
            invariant
                *even,
                n_clusters > 0,
                base == total / n_clusters,
                rem == total % n_clusters,
                base * n_clusters + rem == total,
                base <= total,
                i <= n_clusters,
                sizes@.len() == i,
                total_of(sizes@) == base * i + if i < rem { i as int } else { rem as int },
                forall|t: int|
                    0 <= t < i ==> (#[trigger] sizes@[t]) as nat == even_size(
                        total as nat,
                        n_clusters as nat,
                        t as nat,
                    ),
            decreases n_clusters - i,
        {
            let size = if i < rem {
                proof {
                    assert(base + 1 <= total) by (nonlinear_arith)
                        requires
                            base * n_clusters + rem == total,
                            n_clusters > 0,
                            rem > 0,
                            base >= 0,
                    ;
                }
                base + 1
            } else {
                base
            };
            proof {
                lemma_total_of_push(sizes@, size);
                assert(base * (i + 1) == base * i + base) by (nonlinear_arith);
            }
            sizes.push(size);
            i = i + 1;
        }
        proof {
            lemma_even_sizes_sum_and_balance(total as nat, sizes@);
        }
        sizes
    }
}


/// Clusters drawn around each supercluster centre: `n_clusters` divided by
/// `n_superclusters`, rounded up.
pub open spec fn clusters_per_super(n_clusters: nat, n_superclusters: nat) -> nat {
    n_clusters / n_superclusters + if n_clusters % n_superclusters != 0 { 1nat } else { 0nat }
}

proof fn lemma_per_super_covers(n_clusters: nat, n_superclusters: nat)
    requires
        n_superclusters > 0,
    ensures
        clusters_per_super(n_clusters, n_superclusters) * n_superclusters >= n_clusters,
        n_clusters > 0 ==> clusters_per_super(n_clusters, n_superclusters) > 0,
{
    let q = n_clusters / n_superclusters;
    let r = n_clusters % n_superclusters;
    assert(q * n_superclusters + r == n_clusters && r < n_superclusters) by (nonlinear_arith)
        requires
            q == n_clusters / n_superclusters,
            r == n_clusters % n_superclusters,
            n_superclusters > 0,
    ;
    let p = clusters_per_super(n_clusters, n_superclusters);
    if r != 0 {
        assert(p * n_superclusters == q * n_superclusters + n_superclusters) by (nonlinear_arith)
            requires
                p == q + 1,
        ;
    } else {
        assert(p == q);
        if n_clusters > 0 {
            assert(q > 0) by (nonlinear_arith)
                requires
                    q * n_superclusters + r == n_clusters,
                    r == 0,
                    n_clusters > 0,
            ;
        }
    }
}

/// For each of the `n_clusters` cluster centres, the supercluster it is drawn
/// around: superclusters are filled in order, `clusters_per_super` centres
/// each, until `n_clusters` centres exist.
pub fn supercluster_assignment(n_clusters: usize, n_superclusters: usize) -> (parents: Vec<usize>)
    requires
        n_superclusters > 0,
    ensures
        parents@.len() == n_clusters,
        forall|i: int|
            0 <= i < n_clusters ==> (#[trigger] parents@[i]) as nat == i as nat / clusters_per_super(
                n_clusters as nat,
                n_superclusters as nat,
            ),
        forall|i: int| 0 <= i < n_clusters ==> (#[trigger] parents@[i]) < n_superclusters,
{
    let q = n_clusters / n_superclusters;
    let per_super: usize = if n_clusters % n_superclusters != 0 {
        proof {
            assert(q < n_clusters) by (nonlinear_arith)
                requires
                    q == n_clusters / n_superclusters,
                    n_clusters % n_superclusters != 0,
                    n_superclusters > 0,
            ;
        }
        q + 1
    } else {
        q
    };
    proof {
        lemma_per_super_covers(n_clusters as nat, n_superclusters as nat);
    }
    let mut parents: Vec<usize> = Vec::new();
    let mut i: usize = 0;
    while i < n_clusters
        invariant
            n_superclusters > 0,
            per_super == clusters_per_super(n_clusters as nat, n_superclusters as nat),
            per_super * n_superclusters >= n_clusters,
            n_clusters > 0 ==> per_super > 0,
            i <= n_clusters,
            parents@.len() == i,
            forall|t: int|
                0 <= t < i ==> (#[trigger] parents@[t]) as nat == t as nat / per_super as nat,
            forall|t: int| 0 <= t < i ==> (#[trigger] parents@[t]) < n_superclusters,
        decreases n_clusters - i,
    {
        let parent = i / per_super;
        proof {
            assert(parent < n_superclusters) by (nonlinear_arith)
                requires
                    parent == i / per_super,
                    i < n_clusters,
                    per_super * n_superclusters >= n_clusters,
                    per_super > 0,
            ;
        }
        parents.push(parent);
        i = i + 1;
    }
    parents
}

/// Labels of the points generated cluster by cluster: `sizes[0]` copies of
/// `0`, then `sizes[1]` copies of `1`, and so on.
pub open spec fn labels_for(sizes: Seq<usize>) -> Seq<usize>
    decreases sizes.len(),
{
    if sizes.len() == 0 {
        Seq::empty()
    } else {
        labels_for(sizes.drop_last()) + Seq::new(
            sizes.last() as nat,
            |_i: int| (sizes.len() - 1) as usize,
        )
    }
}

proof fn lemma_labels_len(sizes: Seq<usize>)
    ensures
        labels_for(sizes).len() == total_of(sizes),
    decreases sizes.len(),
{
    if sizes.len() > 0 {
        lemma_labels_len(sizes.drop_last());
    }
}

/// The label of every point, in generation order, for clusters of the given
/// sizes.
pub fn cluster_labels(sizes: &[usize]) -> (labels: Vec<usize>)
    ensures
        labels@ == labels_for(sizes@),
        labels@.len() == total_of(sizes@),
        forall|p: int, c: int|
            #![trigger labels@[p], sizes@.take(c)]
            0 <= p < labels@.len() && 0 <= c < sizes@.len() ==> (labels@[p] == c <==> total_of(
                sizes@.take(c),
            ) <= p < total_of(sizes@.take(c + 1))),
        forall|p: int| 0 <= p < labels@.len() ==> (#[trigger] labels@[p]) < sizes@.len(),
        forall|p: int, q: int|
            0 <= p <= q < labels@.len() ==> #[trigger] labels@[p] <= #[trigger] labels@[q],
{
    let mut labels: Vec<usize> = Vec::new();
    let mut c: usize = 0;
    while c < sizes.len()
        invariant
            c <= sizes@.len(),
            labels@ == labels_for(sizes@.take(c as int)),
        decreases sizes@.len() - c,
    {
        let sz = sizes[c];
        let ghost before = labels@;
        let mut m: usize = 0;
        while m < sz
            invariant
                m <= sz,
                labels@ == before + Seq::new(m as nat, |_i: int| c),
            decreases sz - m,
        {
            labels.push(c);
            m = m + 1;
            assert(labels@ =~= before + Seq::new(m as nat, |_i: int| c));
        }
        proof {
            let next = sizes@.take(c + 1);
            assert(next.drop_last() =~= sizes@.take(c as int));
            assert(next.last() == sz);
            assert(labels@ =~= labels_for(next));
        }
        c = c + 1;
    }
    proof {
        assert(sizes@.take(sizes@.len() as int) =~= sizes@);
        lemma_labels_len(sizes@);
        lemma_labels_by_position(sizes@);
    }
    labels
}

proof fn lemma_prefix_monotone(s: Seq<usize>, c: int, d: int)
    requires
        0 <= c <= d <= s.len(),
    ensures
        total_of(s.take(c)) <= total_of(s.take(d)),
    decreases d - c,
{
    if c < d {
        lemma_prefix_monotone(s, c, d - 1);
        lemma_total_of_take_step(s, d - 1);
    }
}

/// Labels run cluster by cluster, in cluster order: position `p` carries
/// label `c` exactly when `sizes[0] + ... + sizes[c-1] <= p <
/// sizes[0] + ... + sizes[c]`; every label is a cluster index, and labels
/// never decrease along the positions.
pub proof fn lemma_labels_by_position(sizes: Seq<usize>)
    requires
        sizes.len() <= usize::MAX,
    ensures
        forall|p: int, c: int|
            #![trigger labels_for(sizes)[p], sizes.take(c)]
            0 <= p < labels_for(sizes).len() && 0 <= c < sizes.len() ==> (labels_for(sizes)[p] == c
                <==> total_of(sizes.take(c)) <= p < total_of(sizes.take(c + 1))),
        forall|p: int|
            0 <= p < labels_for(sizes).len() ==> (#[trigger] labels_for(sizes)[p]) < sizes.len(),
        forall|p: int, q: int|
            0 <= p <= q < labels_for(sizes).len() ==> #[trigger] labels_for(sizes)[p]
                <= #[trigger] labels_for(sizes)[q],
    decreases sizes.len(),
{
    if sizes.len() > 0 {
        let n = sizes.len();
        let rest = sizes.drop_last();
        let label = (n - 1) as usize;
        assert(label as int == n - 1);
        let run = Seq::new(sizes.last() as nat, |_i: int| label);
        let lab = labels_for(sizes);
        let lr = labels_for(rest);
        lemma_labels_by_position(rest);
        lemma_labels_len(rest);
        lemma_labels_len(sizes);
        assert(lab == lr + run);
        assert(sizes.take(n - 1) =~= rest);
        assert(sizes.take(n as int) =~= sizes);
        assert forall|c: int| 0 <= c <= n - 1 implies #[trigger] sizes.take(c) == rest.take(c) by {
            assert(sizes.take(c) =~= rest.take(c));
        }
        assert forall|p: int, c: int|
            #![trigger lab[p], sizes.take(c)]
            0 <= p < lab.len() && 0 <= c < n implies (lab[p] == c <==> total_of(sizes.take(c)) <= p
                < total_of(sizes.take(c + 1))) by {
            if p < lr.len() {
                assert(lab[p] == lr[p]);
                if c < n - 1 {
                    assert(sizes.take(c) == rest.take(c));
                    assert(sizes.take(c + 1) == rest.take(c + 1));
                    assert(lr[p] == c <==> total_of(rest.take(c)) <= p < total_of(rest.take(c + 1)));
                } else {
                    assert(lr[p] < rest.len());
                }
            } else {
                assert(lab[p] == label);
                if c < n - 1 {
                    lemma_prefix_monotone(sizes, c + 1, n - 1);
                }
            }
        }
        assert forall|p: int| 0 <= p < lab.len() implies (#[trigger] lab[p]) < n by {
            if p < lr.len() {
                assert(lab[p] == lr[p]);
            }
        }
        assert forall|p: int, q: int| 0 <= p <= q < lab.len() implies #[trigger] lab[p]
            <= #[trigger] lab[q] by {
            if q < lr.len() {
                assert(lab[p] == lr[p] && lab[q] == lr[q]);
            } else if p < lr.len() {
                assert(lab[p] == lr[p]);
                assert(lr[p] < rest.len());
            }
        }
    }
}


proof fn lemma_run_count(label: usize, m: nat, c: usize)
    ensures
        Seq::new(m, |_i: int| label).to_multiset().count(c) == if c == label { m } else { 0 },
    decreases m,
{
    broadcast use vstd::seq_lib::group_to_multiset_ensures;
    broadcast use vstd::multiset::group_multiset_axioms;

    if m == 0 {
        assert(Seq::new(m, |_i: int| label) =~= Seq::<usize>::empty());
        assert(Seq::<usize>::empty().to_multiset().len() == 0);
    } else {
        lemma_run_count(label, (m - 1) as nat, c);
        assert(Seq::new(m, |_i: int| label) =~= Seq::new((m - 1) as nat, |_i: int| label).push(
            label,
        ));
    }
}

/// Every cluster keeps its size in the labels: label `c` occurs exactly
/// `sizes[c]` times, and no other label occurs.
pub proof fn lemma_label_counts(sizes: Seq<usize>, c: usize)
    requires
        sizes.len() <= usize::MAX,
    ensures
        labels_for(sizes).to_multiset().count(c) == if c < sizes.len() { sizes[c as int] as nat } else { 0nat },
    decreases sizes.len(),
{
    broadcast use vstd::multiset::group_multiset_axioms;

    if sizes.len() == 0 {
        broadcast use vstd::seq_lib::group_to_multiset_ensures;

        assert(labels_for(sizes) =~= Seq::<usize>::empty());
        assert(labels_for(sizes).to_multiset().len() == 0);
    } else {
        let rest = sizes.drop_last();
        let label = (sizes.len() - 1) as usize;
        assert(label as int == sizes.len() - 1);
        let run = Seq::new(sizes.last() as nat, |_i: int| label);
        lemma_label_counts(rest, c);
        lemma_run_count(label, sizes.last() as nat, c);
        vstd::seq_lib::lemma_multiset_commutative(labels_for(rest), run);
        assert(labels_for(sizes) == labels_for(rest) + run);
        if c == label {
            assert(sizes[c as int] == sizes.last());
        } else if c < rest.len() {
            assert(sizes[c as int] == rest[c as int]);
        }
    }
}

/// The even layout is balanced: sizes differ by at most one, and a later
/// cluster is never larger than an earlier one.
pub proof fn lemma_even_sizes_balanced(total: nat, n: nat, i: nat, j: nat)
    requires
        n > 0,
        i < n,
        j < n,
    ensures
        even_size(total, n, i) <= even_size(total, n, j) + 1,
        i <= j ==> even_size(total, n, j) <= even_size(total, n, i),
{
}

/// Centres are assigned to superclusters in order, and two centres share a
/// supercluster only when fewer than `clusters_per_super` positions apart.
pub proof fn lemma_assignment_in_order(n_clusters: nat, n_superclusters: nat, i: nat, j: nat)
    requires
        n_superclusters > 0,
        i <= j < n_clusters,
    ensures
        i / clusters_per_super(n_clusters, n_superclusters) <= j / clusters_per_super(
            n_clusters,
            n_superclusters,
        ),
        i / clusters_per_super(n_clusters, n_superclusters) == j / clusters_per_super(
            n_clusters,
            n_superclusters,
        ) ==> j - i < clusters_per_super(n_clusters, n_superclusters),
{
    lemma_per_super_covers(n_clusters, n_superclusters);
    let p = clusters_per_super(n_clusters, n_superclusters);
    assert(i / p <= j / p) by (nonlinear_arith)
        requires
            i <= j,
            p > 0,
    ;
    assert(i / p == j / p ==> j - i < p) by (nonlinear_arith)
        requires
            i <= j,
            p > 0,
    ;
}


/// Shuffling the labels of the generated points by an arrangement of all
/// positions keeps every cluster's size: label `c` still occurs exactly
/// `sizes[c]` times.
pub proof fn lemma_shuffled_labels_keep_cluster_sizes(sizes: Seq<usize>, order: Seq<usize>, c: usize)
    requires
        sizes.len() <= usize::MAX,
        total_of(sizes) <= usize::MAX,
        is_index_permutation(order, total_of(sizes) as nat),
    ensures
        gathered(labels_for(sizes), order).to_multiset().count(c) == if c < sizes.len() {
            sizes[c as int] as nat
        } else {
            0nat
        },
{
    lemma_labels_len(sizes);
    lemma_gather_permutation_keeps_items(labels_for(sizes), order);
    lemma_label_counts(sizes, c);
}

} // verus!
