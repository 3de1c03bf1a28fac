//! Algebraic laws of the DTW distance: non-negativity, identity, symmetry,
//! the single-point case, and the stairstep upper bound.

use vstd::prelude::*;

verus! {

use vstd::arithmetic::power::pow;
use vstd::math::abs;
use crate::accum::{cost, dist, dtw_spec, min3, same_dims};
use crate::norm::{lemma_floor_root, lemma_sum_pows_nonneg, sum_pows};

/// A pointwise distance is never negative.
pub proof fn lemma_dist_nonneg(x: Seq<i64>, y: Seq<i64>, p: nat)
    requires
        p >= 1,
    ensures
        dist(x, y, p) >= 0,
{
    lemma_sum_pows_nonneg(x, y, p);
    lemma_floor_root(sum_pows(x, y, p), p);
}

/// No cost-matrix cell is negative: each is a sum of pointwise distances.
pub proof fn lemma_cost_nonneg(a: Seq<Seq<i64>>, b: Seq<Seq<i64>>, p: nat, i: int, j: int)
    requires
        p >= 1,
        i >= 0,
        j >= 0,
    ensures
        cost(a, b, p, i, j) >= 0,
    decreases i + j,
{
    if i == 0 && j == 0 {
        lemma_dist_nonneg(a[0], b[0], p);
    } else if j == 0 {
        lemma_cost_nonneg(a, b, p, i - 1, 0);
        lemma_dist_nonneg(a[i], b[0], p);
    } else if i == 0 {
        lemma_cost_nonneg(a, b, p, 0, j - 1);
        lemma_dist_nonneg(a[0], b[j], p);
    } else {
        lemma_cost_nonneg(a, b, p, i - 1, j);
        lemma_cost_nonneg(a, b, p, i, j - 1);
        lemma_cost_nonneg(a, b, p, i - 1, j - 1);
        lemma_dist_nonneg(a[i], b[j], p);
    }
}

/// Non-negativity: the DTW distance is never negative.
pub proof fn lemma_dtw_nonneg(a: Seq<Seq<i64>>, b: Seq<Seq<i64>>, p: nat)
    requires
        a.len() >= 1,
        b.len() >= 1,
        p >= 1,
    ensures
        dtw_spec(a, b, p) >= 0,
{
    lemma_cost_nonneg(a, b, p, a.len() - 1, b.len() - 1);
}

/// The power sum of a point against itself vanishes.
proof fn lemma_sum_pows_self(x: Seq<i64>, p: nat)
    requires
        p >= 1,
    ensures
        sum_pows(x, x, p) == 0,
    decreases x.len(),
{
    if x.len() == 0 {
    } else {
        lemma_sum_pows_self(x.drop_last(), p);
        assert(abs(x.last() - x.last()) == 0);
        assert(pow(0, p) == 0) by {
            vstd::arithmetic::power::lemma0_pow(p);
        }
    }
}

/// A point is at distance zero from itself.
pub proof fn lemma_dist_self_zero(x: Seq<i64>, p: nat)
    requires
        p >= 1,
    ensures
        dist(x, x, p) == 0,
{
    lemma_sum_pows_self(x, p);
    lemma_floor_root(0, p);
}

/// Along the diagonal of the cost matrix of a sequence against itself,
/// every cell is zero.
proof fn lemma_cost_diag_zero(s: Seq<Seq<i64>>, p: nat, i: int)
    requires
        p >= 1,
        i >= 0,
    ensures
        cost(s, s, p, i, i) == 0,
    decreases i,
{
    if i == 0 {
        lemma_dist_self_zero(s[0], p);
    } else {
        lemma_cost_diag_zero(s, p, i - 1);
        lemma_dist_self_zero(s[i], p);
        lemma_cost_nonneg(s, s, p, i - 1, i);
        lemma_cost_nonneg(s, s, p, i, i - 1);
        assert(min3(
            cost(s, s, p, i - 1, i),
            cost(s, s, p, i, i - 1),
            cost(s, s, p, i - 1, i - 1),
        ) == 0);
    }
}

/// Identity: a non-empty sequence is at DTW distance zero from itself; the
/// optimal alignment runs along the diagonal at zero cost.
pub proof fn lemma_dtw_identity(s: Seq<Seq<i64>>, p: nat)
    requires
        s.len() >= 1,
        p >= 1,
    ensures
        dtw_spec(s, s, p) == 0,
{
    lemma_cost_diag_zero(s, p, s.len() - 1);
}

/// The power sum is symmetric in its two points.
proof fn lemma_sum_pows_sym(x: Seq<i64>, y: Seq<i64>, p: nat)
    requires
        x.len() == y.len(),
    ensures
        sum_pows(x, y, p) == sum_pows(y, x, p),
    decreases x.len(),
{
    if x.len() == 0 {
    } else {
        lemma_sum_pows_sym(x.drop_last(), y.drop_last(), p);
        assert(abs(x.last() - y.last()) == abs(y.last() - x.last()));
    }
}

/// The pointwise distance is symmetric for points of one dimension.
pub proof fn lemma_dist_sym(x: Seq<i64>, y: Seq<i64>, p: nat)
    requires
        x.len() == y.len(),
    ensures
        dist(x, y, p) == dist(y, x, p),
{
    lemma_sum_pows_sym(x, y, p);
}

/// Transposing the cost matrix swaps the roles of the two sequences.
proof fn lemma_cost_sym(a: Seq<Seq<i64>>, b: Seq<Seq<i64>>, p: nat, i: int, j: int)
    requires
        same_dims(a, b),
        0 <= i < a.len(),
        0 <= j < b.len(),
    ensures
        cost(a, b, p, i, j) == cost(b, a, p, j, i),
    decreases i + j,
{
    assert(a[i].len() == a[0].len());
    assert(b[j].len() == a[0].len());
    lemma_dist_sym(a[i], b[j], p);
    if i == 0 && j == 0 {
    } else if j == 0 {
        lemma_cost_sym(a, b, p, i - 1, 0);
        assert(a[0].len() == b[0].len());
        lemma_dist_sym(a[i], b[0], p);
    } else if i == 0 {
        lemma_cost_sym(a, b, p, 0, j - 1);
        lemma_dist_sym(a[0], b[j], p);
    } else {
        lemma_cost_sym(a, b, p, i - 1, j);
        lemma_cost_sym(a, b, p, i, j - 1);
        lemma_cost_sym(a, b, p, i - 1, j - 1);
    }
}

/// Symmetry: the DTW distance does not depend on the order of its two
/// sequences; the recurrence transposes.
pub proof fn lemma_dtw_symmetry(a: Seq<Seq<i64>>, b: Seq<Seq<i64>>, p: nat)
    requires
        a.len() >= 1,
        b.len() >= 1,
        same_dims(a, b),
    ensures
        dtw_spec(a, b, p) == dtw_spec(b, a, p),
{
    lemma_cost_sym(a, b, p, a.len() - 1, b.len() - 1);
}

/// Single-point case: the DTW distance of two one-point sequences is the
/// pointwise distance of those points.
pub proof fn lemma_dtw_single_point(a: Seq<Seq<i64>>, b: Seq<Seq<i64>>, p: nat)
    requires
        a.len() == 1,
        b.len() == 1,
    ensures
        dtw_spec(a, b, p) == dist(a[0], b[0], p),
{
}

/// The accumulated distance along the border column `j = 0`, up to row `i`.
pub open spec fn stair_col(a: Seq<Seq<i64>>, b: Seq<Seq<i64>>, p: nat, i: int) -> int
    decreases i,
    when i >= 0
{
    if i <= 0 {
        dist(a[0], b[0], p)
    } else {
        stair_col(a, b, p, i - 1) + dist(a[i], b[0], p)
    }
}

/// The accumulated distance of the stairstep path: all of column `0`, then
/// along the last row up to column `j`.
pub open spec fn stair_row(a: Seq<Seq<i64>>, b: Seq<Seq<i64>>, p: nat, j: int) -> int
    decreases j,
    when j >= 0
{
    if j <= 0 {
        stair_col(a, b, p, a.len() - 1)
    } else {
        stair_row(a, b, p, j - 1) + dist(a[a.len() - 1], b[j], p)
    }
}

/// The cost of the stairstep alignment: `a` against `b[0]` point by point,
/// then `a`'s last point against the rest of `b`.
pub open spec fn stairstep_cost(a: Seq<Seq<i64>>, b: Seq<Seq<i64>>, p: nat) -> int
    recommends
        a.len() >= 1,
        b.len() >= 1,
{
    stair_row(a, b, p, b.len() - 1)
}

proof fn lemma_cost_col(a: Seq<Seq<i64>>, b: Seq<Seq<i64>>, p: nat, i: int)
    requires
        i >= 0,
    ensures
        cost(a, b, p, i, 0) == stair_col(a, b, p, i),
    decreases i,
{
    if i > 0 {
        lemma_cost_col(a, b, p, i - 1);
    }
}

proof fn lemma_cost_last_row(a: Seq<Seq<i64>>, b: Seq<Seq<i64>>, p: nat, j: int)
    requires
        a.len() >= 1,
        p >= 1,
        j >= 0,
    ensures
        cost(a, b, p, a.len() - 1, j) <= stair_row(a, b, p, j),
    decreases j,
{
    let last = a.len() - 1;
    if j == 0 {
        lemma_cost_col(a, b, p, last);
    } else {
        lemma_cost_last_row(a, b, p, j - 1);
        if last == 0 {
            assert(cost(a, b, p, 0, j) == cost(a, b, p, 0, j - 1) + dist(a[0], b[j], p));
        } else {
            assert(cost(a, b, p, last, j) == dist(a[last], b[j], p) + min3(
                cost(a, b, p, last - 1, j),
                cost(a, b, p, last, j - 1),
                cost(a, b, p, last - 1, j - 1),
            ));
        }
    }
}

/// Stairstep upper bound: the DTW distance is between zero and the cost of
/// the trivial stairstep alignment.
pub proof fn lemma_dtw_stairstep_bound(a: Seq<Seq<i64>>, b: Seq<Seq<i64>>, p: nat)
    requires
        a.len() >= 1,
        b.len() >= 1,
        p >= 1,
    ensures
        0 <= dtw_spec(a, b, p) <= stairstep_cost(a, b, p),
{
    lemma_dtw_nonneg(a, b, p);
    lemma_cost_last_row(a, b, p, b.len() - 1);
}

} // verus!
