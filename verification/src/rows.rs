//! Row-major matrices held as vectors of rows: flattening, shape, and
//! reordering rows.

use crate::sampling::{identity_order, is_index_permutation};
use vstd::prelude::*;

verus! {

/// The contents of every row, in order.
pub open spec fn row_views<T>(rows: Seq<Vec<T>>) -> Seq<Seq<T>> {
    rows.map_values(|r: Vec<T>| r@)
}

/// Concatenates the rows into one row-major buffer.
pub fn flatten_rows<T: Copy>(rows: &[Vec<T>]) -> (out: Vec<T>)
    ensures
        out@ == row_views(rows@).flatten(),
{
    let mut out: Vec<T> = Vec::new();
    let mut r: usize = 0;
    while r < rows.len()
        invariant
            r <= rows@.len(),
            out@ == row_views(rows@.take(r as int)).flatten(),
        decreases rows@.len() - r,
    {
        let row = &rows[r];
        let ghost before = out@;
        let mut c: usize = 0;
        while c < row.len()
            invariant
                c <= row@.len(),
                out@ == before + row@.take(c as int),
            decreases row@.len() - c,
        {
            out.push(row[c]);
            c = c + 1;
            assert(out@ =~= before + row@.take(c as int));
        }
        proof {
            let prev = row_views(rows@.take(r as int));
            assert(row_views(rows@.take(r + 1)) =~= prev.push(row@));
            prev.lemma_flatten_push(row@);
            assert(row@.take(c as int) =~= row@);
        }
        r = r + 1;
    }
    proof {
        assert(rows@.take(rows@.len() as int) =~= rows@);
    }
    out
}

/// `(number of rows, length of the first row)`, the second being `0` when
/// there are no rows.
pub fn row_shape<T>(rows: &[Vec<T>]) -> (shape: (usize, usize))
    ensures
        shape.0 == rows@.len(),
        shape.1 == if rows@.len() == 0 { 0 } else { rows@[0]@.len() },
{
    let n = rows.len();
    let dim = if n == 0 {
        0
    } else {
        rows[0].len()
    };
    (n, dim)
}

/// `items` rearranged so that position `k` holds `items[order[k]]`.
pub open spec fn gathered<T>(items: Seq<T>, order: Seq<usize>) -> Seq<T> {
    Seq::new(order.len(), |k: int| items[order[k] as int])
}

/// Reorders items: position `k` of the result holds `items[order[k]]`.
pub fn gather<T: Copy>(items: &[T], order: &[usize]) -> (out: Vec<T>)
    requires
        forall|k: int| 0 <= k < order@.len() ==> (#[trigger] order@[k]) < items@.len(),
    ensures
        out@ == gathered(items@, order@),
{
    let mut out: Vec<T> = Vec::new();
    let mut k: usize = 0;
    while k < order.len()
        invariant
            k <= order@.len(),
            forall|t: int| 0 <= t < order@.len() ==> (#[trigger] order@[t]) < items@.len(),
            out@ == gathered(items@, order@.take(k as int)),
        decreases order@.len() - k,
    {
        out.push(items[order[k]]);
        k = k + 1;
        assert(out@ =~= gathered(items@, order@.take(k as int)));
    }
    assert(order@.take(order@.len() as int) =~= order@);
    out
}

/// A copy of one row.
fn copy_row<T: Copy>(row: &Vec<T>) -> (out: Vec<T>)
    ensures
        out@ == row@,
{
    let mut out: Vec<T> = Vec::new();
    let mut c: usize = 0;
    while c < row.len()
        invariant
            c <= row@.len(),
            out@ == row@.take(c as int),
        decreases row@.len() - c,
    {
        out.push(row[c]);
        c = c + 1;
        assert(out@ =~= row@.take(c as int));
    }
    assert(row@.take(c as int) =~= row@);
    out
}

/// Reorders rows: row `k` of the result is a copy of `rows[order[k]]`.
pub fn gather_rows<T: Copy>(rows: &[Vec<T>], order: &[usize]) -> (out: Vec<Vec<T>>)
    requires
        forall|k: int| 0 <= k < order@.len() ==> (#[trigger] order@[k]) < rows@.len(),
    ensures
        row_views(out@) == gathered(row_views(rows@), order@),
{
    let mut out: Vec<Vec<T>> = Vec::new();
    let mut k: usize = 0;
    while k < order.len()
        invariant
            k <= order@.len(),
            forall|t: int| 0 <= t < order@.len() ==> (#[trigger] order@[t]) < rows@.len(),
            out@.len() == k,
            row_views(out@) == gathered(row_views(rows@), order@.take(k as int)),
        decreases order@.len() - k,
    {
        let idx = order[k];
        let row = copy_row(&rows[idx]);
        let ghost prev = out@;
        let ghost pushed = row@;
        out.push(row);
        proof {
            let target = gathered(row_views(rows@), order@.take(k + 1));
            assert forall|t: int| 0 <= t < k + 1 implies #[trigger] row_views(out@)[t] == target[t] by {
                if t < k {
                    assert(out@[t] == prev[t]);
                    assert(row_views(prev)[t] == gathered(row_views(rows@), order@.take(k as int))[t]);
                } else {
                    assert(out@[t]@ == pushed);
                }
            }
            assert(row_views(out@) =~= target);
        }
        k = k + 1;
    }
    assert(order@.take(order@.len() as int) =~= order@);
    out
}


/// Reordering by an arrangement of all positions loses and duplicates
/// nothing: the result holds the same items with the same multiplicities.
pub proof fn lemma_gather_permutation_keeps_items<T>(items: Seq<T>, order: Seq<usize>)
    requires
        items.len() <= usize::MAX,
        is_index_permutation(order, items.len()),
    ensures
        gathered(items, order).to_multiset() == items.to_multiset(),
    decreases items.len(),
{
    broadcast use vstd::seq_lib::group_to_multiset_ensures;
    broadcast use vstd::multiset::group_multiset_axioms;

    let n = items.len();
    assert(order.to_multiset().len() == identity_order(n).to_multiset().len());
    assert(order.len() == n);
    let g = gathered(items, order);
    if n == 0 {
        assert(g =~= Seq::<T>::empty());
        assert(items =~= Seq::<T>::empty());
    } else {
        let last = (n - 1) as usize;
        assert(last as int == n - 1);
        let ids_rest = identity_order((n - 1) as nat);
        assert(identity_order(n) =~= ids_rest.push(last));
        assert(identity_order(n).to_multiset() =~= ids_rest.to_multiset().insert(last));
        assert(order.to_multiset().count(last) > 0);
        assert(order.contains(last));
        let q = choose|q: int| 0 <= q < order.len() && order[q] == last;
        let order_rest = order.remove(q);
        assert(order_rest.to_multiset() =~= order.to_multiset().remove(last));
        assert(order_rest.to_multiset() =~= ids_rest.to_multiset());
        let items_rest = items.drop_last();
        lemma_gather_permutation_keeps_items(items_rest, order_rest);
        let g_rest = gathered(items_rest, order_rest);
        assert forall|k: int| 0 <= k < order_rest.len() implies (#[trigger] order_rest[k]) < n - 1 by {
            let x = order_rest[k];
            assert(order_rest.contains(x));
            assert(order_rest.to_multiset().count(x) > 0);
            assert(ids_rest.to_multiset().count(x) > 0);
            assert(ids_rest.contains(x));
        }
        assert(g.remove(q) =~= g_rest) by {
            assert forall|k: int| 0 <= k < g_rest.len() implies #[trigger] g.remove(q)[k] == g_rest[k] by {
                if k < q {
                    assert(order_rest[k] == order[k]);
                } else {
                    assert(order_rest[k] == order[k + 1]);
                }
            }
        }
        assert(g[q] == items.last());
        assert(g.remove(q).to_multiset() == g.to_multiset().remove(g[q]));
        assert(items_rest.push(items.last()) =~= items);
        assert(items.to_multiset() =~= items_rest.to_multiset().insert(items.last()));
        assert(g.contains(g[q]));
        assert(g.to_multiset().count(g[q]) > 0);
        assert(g.to_multiset() =~= g.to_multiset().remove(g[q]).insert(g[q]));
    }
}


/// Flattening rows that all have length `d` lays them out row-major: the
/// buffer has `rows * d` entries and entry `r * d + c` is row `r`, column `c`.
pub proof fn lemma_flatten_row_major<T>(rows: Seq<Seq<T>>, d: nat, r: int, c: int)
    requires
        forall|i: int| 0 <= i < rows.len() ==> (#[trigger] rows[i]).len() == d,
    ensures
        rows.flatten().len() == rows.len() * d,
        0 <= r < rows.len() && 0 <= c < d ==> rows.flatten()[r * d + c] == rows[r][c],
    decreases rows.len(),
{
    if rows.len() > 0 {
        let rest = rows.drop_first();
        lemma_flatten_row_major(rest, d, r - 1, c);
        assert(rows.flatten() == rows[0] + rest.flatten());
        assert(rows.len() * d == d + rest.len() * d) by (nonlinear_arith)
            requires
                rest.len() == rows.len() - 1,
        ;
        if 0 <= r < rows.len() && 0 <= c < d {
            if r == 0 {
                assert(r * d == 0) by (nonlinear_arith)
                    requires
                        r == 0,
                ;
                assert(rows.flatten()[c] == rows[0][c]);
            } else {
                assert(r * d + c - d == (r - 1) * d + c) by (nonlinear_arith);
                assert(r * d + c >= d) by (nonlinear_arith)
                    requires
                        r >= 1,
                        c >= 0,
                ;
                assert(rest[r - 1] == rows[r]);
                assert((r - 1) * d + c < rest.len() * d) by (nonlinear_arith)
                    requires
                        1 <= r < rows.len(),
                        0 <= c < d,
                        rest.len() == rows.len() - 1,
                ;
                let idx = r * d + c;
                assert(rows[0].len() == d);
                assert((rows[0] + rest.flatten())[idx] == rest.flatten()[idx - d]);
                assert(rows.flatten()[idx] == rest.flatten()[(r - 1) * d + c]);
            }
        }
    }
}

} // verus!
