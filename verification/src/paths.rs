//! Warping paths, and the proof that the cost-matrix recurrence computes
//! the minimum accumulated distance over all of them.
//!
//! A warping path to `(i, j)` is a monotonic, step-continuous sequence of
//! index pairs from `(0, 0)` to `(i, j)`: each step advances in `a`, in `b`,
//! or in both at once. The DTW distance is at most the cost of every such
//! path, and some path attains it.

use vstd::prelude::*;

verus! {

use crate::accum::{cost, dist, dtw_spec, min3};

/// One step of a warping path: advance in `a`, in `b`, or in both.
pub open spec fn is_warp_step(u: (int, int), v: (int, int)) -> bool {
    ||| (v.0 == u.0 + 1 && v.1 == u.1)
    ||| (v.0 == u.0 && v.1 == u.1 + 1)
    ||| (v.0 == u.0 + 1 && v.1 == u.1 + 1)
}

/// A warping path from `(0, 0)` to `(i, j)`.
pub open spec fn is_warp_path(w: Seq<(int, int)>, i: int, j: int) -> bool {
    &&& w.len() >= 1
    &&& w[0] == (0int, 0int)
    &&& w.last() == (i, j)
    &&& forall|k: int| 0 <= k < w.len() - 1 ==> is_warp_step(#[trigger] w[k], w[k + 1])
}

/// The accumulated pointwise distance along a path.
pub open spec fn path_cost(a: Seq<Seq<i64>>, b: Seq<Seq<i64>>, p: nat, w: Seq<(int, int)>) -> int
    decreases w.len(),
{
    if w.len() == 0 {
        0
    } else {
        path_cost(a, b, p, w.drop_last()) + dist(a[w.last().0], b[w.last().1], p)
    }
}

/// Every entry of a warping path has non-negative indices.
proof fn lemma_path_entry_nonneg(w: Seq<(int, int)>, i: int, j: int, k: int)
    requires
        is_warp_path(w, i, j),
        0 <= k < w.len(),
    ensures
        w[k].0 >= 0,
        w[k].1 >= 0,
    decreases k,
{
    if k > 0 {
        lemma_path_entry_nonneg(w, i, j, k - 1);
        assert(is_warp_step(w[k - 1], w[k]));
    }
}

/// Dropping the last entry of a warping path leaves a warping path to the
/// second-to-last entry.
proof fn lemma_path_drop_last(w: Seq<(int, int)>, i: int, j: int)
    requires
        is_warp_path(w, i, j),
        w.len() >= 2,
    ensures
        is_warp_path(w.drop_last(), w[w.len() - 2].0, w[w.len() - 2].1),
{
    let w2 = w.drop_last();
    assert(w2[0] == w[0]);
    assert(w2.last() == w[w.len() - 2]);
    assert forall|k: int| 0 <= k < w2.len() - 1 implies is_warp_step(#[trigger] w2[k], w2[k + 1]) by {
        assert(w2[k] == w[k]);
        assert(w2[k + 1] == w[k + 1]);
        assert(is_warp_step(w[k], w[k + 1]));
    }
}

/// Lower bound: no warping path to `(i, j)` costs less than the
/// cost-matrix cell `(i, j)`.
pub proof fn lemma_cost_le_path_cost(
    a: Seq<Seq<i64>>,
    b: Seq<Seq<i64>>,
    p: nat,
    w: Seq<(int, int)>,
    i: int,
    j: int,
)
    requires
        is_warp_path(w, i, j),
    ensures
        cost(a, b, p, i, j) <= path_cost(a, b, p, w),
    decreases w.len(),
{
    lemma_path_entry_nonneg(w, i, j, w.len() - 1);
    if w.len() == 1 {
        assert(w[0] == w.last());
        assert(i == 0 && j == 0);
        assert(w.drop_last().len() == 0);
        assert(path_cost(a, b, p, w.drop_last()) == 0);
        assert(path_cost(a, b, p, w) == dist(a[0], b[0], p));
    } else {
        let u = w[w.len() - 2];
        lemma_path_entry_nonneg(w, i, j, w.len() - 2);
        lemma_path_drop_last(w, i, j);
        lemma_cost_le_path_cost(a, b, p, w.drop_last(), u.0, u.1);
        assert(is_warp_step(u, (i, j)));
        if i == 0 && j == 0 {
            assert(u.0 == -1 || u.1 == -1);
            assert(false);
        } else if j == 0 {
            assert(u == (i - 1, 0int));
            assert(cost(a, b, p, i, 0) == cost(a, b, p, i - 1, 0) + dist(a[i], b[0], p));
        } else if i == 0 {
            assert(u == (0int, j - 1));
            assert(cost(a, b, p, 0, j) == cost(a, b, p, 0, j - 1) + dist(a[0], b[j], p));
        } else {
            assert(cost(a, b, p, i, j) == dist(a[i], b[j], p) + min3(
                cost(a, b, p, i - 1, j),
                cost(a, b, p, i, j - 1),
                cost(a, b, p, i - 1, j - 1),
            ));
            assert(cost(a, b, p, u.0, u.1) >= min3(
                cost(a, b, p, i - 1, j),
                cost(a, b, p, i, j - 1),
                cost(a, b, p, i - 1, j - 1),
            ));
        }
    }
}

/// A warping path to `(ui, uj)` of a given cost extends by one step to a
/// path to `(i, j)` that also pays the distance at `(i, j)`.
proof fn lemma_path_extends(
    a: Seq<Seq<i64>>,
    b: Seq<Seq<i64>>,
    p: nat,
    ui: int,
    uj: int,
    i: int,
    j: int,
)
    requires
        is_warp_step((ui, uj), (i, j)),
        exists|w: Seq<(int, int)>|
            is_warp_path(w, ui, uj) && #[trigger] path_cost(a, b, p, w) == cost(a, b, p, ui, uj),
    ensures
        exists|w: Seq<(int, int)>|
            is_warp_path(w, i, j) && #[trigger] path_cost(a, b, p, w) == cost(a, b, p, ui, uj)
                + dist(a[i], b[j], p),
{
    let w0 = choose|w: Seq<(int, int)>|
        is_warp_path(w, ui, uj) && #[trigger] path_cost(a, b, p, w) == cost(a, b, p, ui, uj);
    let w = w0.push((i, j));
    assert(w[0] == w0[0]);
    assert(w.last() == (i, j));
    assert forall|k: int| 0 <= k < w.len() - 1 implies is_warp_step(#[trigger] w[k], w[k + 1]) by {
        if k < w0.len() - 1 {
            assert(w[k] == w0[k]);
            assert(w[k + 1] == w0[k + 1]);
            assert(is_warp_step(w0[k], w0[k + 1]));
        } else {
            assert(w[k] == w0.last());
            assert(w[k + 1] == (i, j));
        }
    }
    assert(w.drop_last() =~= w0);
    assert(is_warp_path(w, i, j));
    assert(path_cost(a, b, p, w) == cost(a, b, p, ui, uj) + dist(a[i], b[j], p));
}

/// Some warping path to `(i, j)` costs exactly the cost-matrix cell
/// `(i, j)`: the minimum is attained.
pub proof fn lemma_exists_path_of_cost(a: Seq<Seq<i64>>, b: Seq<Seq<i64>>, p: nat, i: int, j: int)
    requires
        i >= 0,
        j >= 0,
    ensures
        exists|w: Seq<(int, int)>|
            is_warp_path(w, i, j) && #[trigger] path_cost(a, b, p, w) == cost(a, b, p, i, j),
    decreases i + j,
{
    if i == 0 && j == 0 {
        let w = seq![(0int, 0int)];
        assert(w[0] == (0int, 0int));
        assert(w.last() == (0int, 0int));
        assert(is_warp_path(w, 0, 0));
        assert(w.drop_last().len() == 0);
        assert(path_cost(a, b, p, w.drop_last()) == 0);
        assert(path_cost(a, b, p, w) == dist(a[0], b[0], p));
        assert(path_cost(a, b, p, w) == cost(a, b, p, 0, 0));
    } else if j == 0 {
        lemma_exists_path_of_cost(a, b, p, i - 1, 0);
        lemma_path_extends(a, b, p, i - 1, 0, i, 0);
        assert(cost(a, b, p, i, 0) == cost(a, b, p, i - 1, 0) + dist(a[i], b[0], p));
    } else if i == 0 {
        lemma_exists_path_of_cost(a, b, p, 0, j - 1);
        lemma_path_extends(a, b, p, 0, j - 1, 0, j);
        assert(cost(a, b, p, 0, j) == cost(a, b, p, 0, j - 1) + dist(a[0], b[j], p));
    } else {
        let c1 = cost(a, b, p, i - 1, j);
        let c2 = cost(a, b, p, i, j - 1);
        let c3 = cost(a, b, p, i - 1, j - 1);
        let m = min3(c1, c2, c3);
        if m == c1 {
            lemma_exists_path_of_cost(a, b, p, i - 1, j);
            lemma_path_extends(a, b, p, i - 1, j, i, j);
        } else if m == c2 {
            lemma_exists_path_of_cost(a, b, p, i, j - 1);
            lemma_path_extends(a, b, p, i, j - 1, i, j);
        } else {
            lemma_exists_path_of_cost(a, b, p, i - 1, j - 1);
            lemma_path_extends(a, b, p, i - 1, j - 1, i, j);
        }
        assert(cost(a, b, p, i, j) == dist(a[i], b[j], p) + m);
    }
}

/// The DTW distance is the minimum of the accumulated pointwise distance
/// over all warping paths: no path costs less, and some path attains it.
pub proof fn lemma_dtw_minimizes_over_paths(a: Seq<Seq<i64>>, b: Seq<Seq<i64>>, p: nat)
    requires
        a.len() >= 1,
        b.len() >= 1,
    ensures
        forall|w: Seq<(int, int)>|
            is_warp_path(w, a.len() - 1, b.len() - 1) ==> dtw_spec(a, b, p) <= #[trigger] path_cost(
                a,
                b,
                p,
                w,
            ),
        exists|w: Seq<(int, int)>|
            is_warp_path(w, a.len() - 1, b.len() - 1) && #[trigger] path_cost(a, b, p, w)
                == dtw_spec(a, b, p),
{
    assert forall|w: Seq<(int, int)>|
        is_warp_path(w, a.len() - 1, b.len() - 1) implies dtw_spec(a, b, p) <= #[trigger] path_cost(
        a,
        b,
        p,
        w,
    ) by {
        lemma_cost_le_path_cost(a, b, p, w, a.len() - 1, b.len() - 1);
    }
    lemma_exists_path_of_cost(a, b, p, a.len() - 1, b.len() - 1);
}

} // verus!
