//! The DTW accumulator: a dynamic program over a cost matrix.
//!
//! Cell `(i, j)` of the matrix holds the minimal accumulated pointwise
//! distance of aligning the prefix of `a` ending at `i` with the prefix of
//! `b` ending at `j`; a step of an alignment may advance in `a`, in `b`, or
//! in both at once. The first row and column are cumulative sums along the
//! border, and the bottom-right cell is the DTW distance.

use vstd::prelude::*;

verus! {

use crate::norm::{floor_root, p_norm, sum_pows};

/// The sequence of coordinate sequences that a vector of points stands for.
pub open spec fn points_view(s: Seq<Vec<i64>>) -> Seq<Seq<i64>> {
    s.map_values(|v: Vec<i64>| v@)
}

/// The pointwise distance used by the accumulator: the p-norm of the
/// coordinate differences, floored to an integer.
pub open spec fn dist(x: Seq<i64>, y: Seq<i64>, p: nat) -> int {
    floor_root(sum_pows(x, y, p), p)
}

/// The least of three values.
pub open spec fn min3(x: int, y: int, z: int) -> int {
    if x <= y && x <= z {
        x
    } else if y <= z {
        y
    } else {
        z
    }
}

/// The cost-matrix recurrence: `cost(a, b, p, i, j)` is the minimal
/// accumulated distance of aligning `a[0..=i]` with `b[0..=j]`.
pub open spec fn cost(a: Seq<Seq<i64>>, b: Seq<Seq<i64>>, p: nat, i: int, j: int) -> int
    recommends
        0 <= i < a.len(),
        0 <= j < b.len(),
    decreases i + j,
        when i >= 0 && j >= 0
{
    if i == 0 && j == 0 {
        dist(a[0], b[0], p)
    } else if j == 0 {
        cost(a, b, p, i - 1, 0) + dist(a[i], b[0], p)
    } else if i == 0 {
        cost(a, b, p, 0, j - 1) + dist(a[0], b[j], p)
    } else {
        dist(a[i], b[j], p) + min3(
            cost(a, b, p, i - 1, j),
            cost(a, b, p, i, j - 1),
            cost(a, b, p, i - 1, j - 1),
        )
    }
}

/// The DTW distance of two non-empty sequences: the bottom-right cell of the
/// cost matrix.
pub open spec fn dtw_spec(a: Seq<Seq<i64>>, b: Seq<Seq<i64>>, p: nat) -> int
    recommends
        a.len() >= 1,
        b.len() >= 1,
{
    cost(a, b, p, a.len() - 1, b.len() - 1)
}

/// Every point of `a` and of `b` has the dimension of `a`'s first point.
pub open spec fn same_dims(a: Seq<Seq<i64>>, b: Seq<Seq<i64>>) -> bool {
    &&& forall|i: int| 0 <= i < a.len() ==> #[trigger] a[i].len() == a[0].len()
    &&& forall|j: int| 0 <= j < b.len() ==> #[trigger] b[j].len() == a[0].len()
}

/// Every pointwise power sum and every cost-matrix cell fits in a `u64`.
pub open spec fn fits_u64(a: Seq<Seq<i64>>, b: Seq<Seq<i64>>, p: nat) -> bool {
    &&& forall|i: int, j: int|
        0 <= i < a.len() && 0 <= j < b.len() ==> #[trigger] sum_pows(a[i], b[j], p) <= u64::MAX
    &&& forall|i: int, j: int|
        0 <= i < a.len() && 0 <= j < b.len() ==> #[trigger] cost(a, b, p, i, j) <= u64::MAX
}

/// How a distance computation can fail.
#[derive(Clone, Copy, Debug, PartialEq, Eq, Structural)]
pub enum DtwError {
    /// One of the input sequences has no points.
    EmptySequence,
    /// Two points do not share one dimension.
    DimensionMismatch,
    /// The norm order is not positive.
    InvalidNormOrder,
    /// A power sum or a cost-matrix cell does not fit in a `u64`.
    Overflow,
}

/// The full contract of [`dtw_op`]: which result is owed on which input.
pub open spec fn dtw_result(
    a: Seq<Seq<i64>>,
    b: Seq<Seq<i64>>,
    p: nat,
    r: Result<u64, DtwError>,
) -> bool {
    if a.len() == 0 || b.len() == 0 {
        r == Result::<u64, DtwError>::Err(DtwError::EmptySequence)
    } else if p == 0 {
        r == Result::<u64, DtwError>::Err(DtwError::InvalidNormOrder)
    } else if !same_dims(a, b) {
        r == Result::<u64, DtwError>::Err(DtwError::DimensionMismatch)
    } else if !fits_u64(a, b, p) {
        r == Result::<u64, DtwError>::Err(DtwError::Overflow)
    } else {
        r matches Ok(v) && v == dtw_spec(a, b, p)
    }
}

/// The least of three machine integers.
fn min3_u64(x: u64, y: u64, z: u64) -> (m: u64)
    ensures
        m == min3(x as int, y as int, z as int),
{
    if x <= y && x <= z {
        x
    } else if y <= z {
        y
    } else {
        z
    }
}

/// The DTW distance between `a` and `b` under the p-norm of order `p`.
///
/// Fails fast on malformed input: an empty sequence, a non-positive norm
/// order, points of unequal dimension, or a value that does not fit in a
/// `u64`; otherwise returns exactly the bottom-right cell of the cost
/// matrix of the recurrence [`cost`].
pub fn dtw_op(a: &Vec<Vec<i64>>, b: &Vec<Vec<i64>>, p: u32) -> (r: Result<u64, DtwError>)
    ensures
        dtw_result(points_view(a@), points_view(b@), p as nat, r),
{
    let ghost av = points_view(a@);
    let ghost bv = points_view(b@);
    let ghost pn = p as nat;
    let n = a.len();
    let o = b.len();
    if n == 0 || o == 0 {
        return Err(DtwError::EmptySequence);
    }
    if p == 0 {
        return Err(DtwError::InvalidNormOrder);
    }
    let dim = a[0].len();
    let mut i: usize = 0;
    while i < n
        invariant
            av == points_view(a@),
            bv == points_view(b@),
            n == a@.len(),
            o == b@.len(),
            0 < n,
            0 < o,
            i <= n,
            p >= 1,
            pn == p as nat,
            dim == av[0].len(),
            forall|k: int| 0 <= k < i ==> #[trigger] av[k].len() == dim,
        decreases n - i,
    {
        if a[i].len() != dim {
            proof {
                assert(av[i as int].len() != av[0].len());
                assert(!same_dims(av, bv));
            }
            return Err(DtwError::DimensionMismatch);
        }
        i = i + 1;
    }
    let mut j: usize = 0;
    while j < o
        invariant
            av == points_view(a@),
            bv == points_view(b@),
            n == a@.len(),
            o == b@.len(),
            0 < n,
            0 < o,
            j <= o,
            p >= 1,
            pn == p as nat,
            dim == av[0].len(),
            forall|k: int| 0 <= k < n ==> #[trigger] av[k].len() == dim,
            forall|k: int| 0 <= k < j ==> #[trigger] bv[k].len() == dim,
        decreases o - j,
    {
        if b[j].len() != dim {
            proof {
                assert(bv[j as int].len() != av[0].len());
                assert(!same_dims(av, bv));
            }
            return Err(DtwError::DimensionMismatch);
        }
        j = j + 1;
    }
    assert(same_dims(av, bv));

    proof {
        assert(a@[0]@ == av[0]);
        assert(b@[0]@ == bv[0]);
    }
    let d00 = match p_norm(&a[0], &b[0], p) {
        Some(d) => d,
        None => {
            proof {
                assert(sum_pows(av[0], bv[0], pn) > u64::MAX);
                assert(!fits_u64(av, bv, pn));
            }
            return Err(DtwError::Overflow);
        },
    };
    let mut row: Vec<u64> = Vec::new();
    row.push(d00);
    let mut j: usize = 1;
    while j < o
        invariant
            av == points_view(a@),
            bv == points_view(b@),
            n == a@.len(),
            o == b@.len(),
            0 < n,
            1 <= j <= o,
            p >= 1,
            pn == p as nat,
            dim == av[0].len(),
            same_dims(av, bv),
            forall|k: int| 0 <= k < n ==> #[trigger] av[k].len() == dim,
            forall|k: int| 0 <= k < o ==> #[trigger] bv[k].len() == dim,
            row@.len() == j,
            forall|c: int| 0 <= c < j ==> #[trigger] row@[c] == cost(av, bv, pn, 0, c),
            forall|c: int| 0 <= c < j ==> #[trigger] sum_pows(av[0], bv[c], pn) <= u64::MAX,
        decreases o - j,
    {
        proof {
            assert(a@[0]@ == av[0]);
            assert(b@[j as int]@ == bv[j as int]);
            assert(bv[j as int].len() == dim);
        }
        let d = match p_norm(&a[0], &b[j], p) {
            Some(d) => d,
            None => {
                proof {
                    assert(sum_pows(av[0], bv[j as int], pn) > u64::MAX);
                    assert(!fits_u64(av, bv, pn));
                }
                return Err(DtwError::Overflow);
            },
        };
        let prev = row[j - 1];
        let v = match prev.checked_add(d) {
            Some(v) => v,
            None => {
                proof {
                    assert(cost(av, bv, pn, 0, j as int) == cost(av, bv, pn, 0, j - 1) + dist(
                        av[0],
                        bv[j as int],
                        pn,
                    ));
                    assert(cost(av, bv, pn, 0, j as int) > u64::MAX);
                    assert(!fits_u64(av, bv, pn));
                }
                return Err(DtwError::Overflow);
            },
        };
        row.push(v);
        j = j + 1;
    }
    let mut mat: Vec<Vec<u64>> = Vec::new();
    mat.push(row);
    let mut i: usize = 1;
    while i < n
        invariant
            av == points_view(a@),
            bv == points_view(b@),
            n == a@.len(),
            o == b@.len(),
            0 < n,
            0 < o,
            1 <= i <= n,
            p >= 1,
            pn == p as nat,
            dim == av[0].len(),
            same_dims(av, bv),
            forall|k: int| 0 <= k < n ==> #[trigger] av[k].len() == dim,
            forall|k: int| 0 <= k < o ==> #[trigger] bv[k].len() == dim,
            mat@.len() == i,
            forall|r: int| 0 <= r < i ==> #[trigger] mat@[r]@.len() == o,
            forall|r: int, c: int|
                0 <= r < i && 0 <= c < o ==> #[trigger] mat@[r]@[c] == cost(av, bv, pn, r, c),
            forall|r: int, c: int|
                0 <= r < i && 0 <= c < o ==> #[trigger] sum_pows(av[r], bv[c], pn) <= u64::MAX,
        decreases n - i,
    {
        proof {
            assert(a@[i as int]@ == av[i as int]);
            assert(b@[0]@ == bv[0]);
            assert(av[i as int].len() == dim);
        }
        let d0 = match p_norm(&a[i], &b[0], p) {
            Some(d) => d,
            None => {
                proof {
                    assert(sum_pows(av[i as int], bv[0], pn) > u64::MAX);
                    assert(!fits_u64(av, bv, pn));
                }
                return Err(DtwError::Overflow);
            },
        };
        let up0 = mat[i - 1][0];
        let v0 = match up0.checked_add(d0) {
            Some(v) => v,
            None => {
                proof {
                    assert(cost(av, bv, pn, i as int, 0) == cost(av, bv, pn, i - 1, 0) + dist(
                        av[i as int],
                        bv[0],
                        pn,
                    ));
                    assert(cost(av, bv, pn, i as int, 0) > u64::MAX);
                    assert(!fits_u64(av, bv, pn));
                }
                return Err(DtwError::Overflow);
            },
        };
        let mut rowi: Vec<u64> = Vec::new();
        rowi.push(v0);
        let mut j: usize = 1;
        while j < o
            invariant
                av == points_view(a@),
                bv == points_view(b@),
                n == a@.len(),
                o == b@.len(),
                0 < n,
                1 <= i < n,
                1 <= j <= o,
                p >= 1,
                pn == p as nat,
                dim == av[0].len(),
                same_dims(av, bv),
                forall|k: int| 0 <= k < n ==> #[trigger] av[k].len() == dim,
                forall|k: int| 0 <= k < o ==> #[trigger] bv[k].len() == dim,
                mat@.len() == i,
                forall|r: int| 0 <= r < i ==> #[trigger] mat@[r]@.len() == o,
                forall|r: int, c: int|
                    0 <= r < i && 0 <= c < o ==> #[trigger] mat@[r]@[c] == cost(av, bv, pn, r, c),
                forall|r: int, c: int|
                    0 <= r < i && 0 <= c < o ==> #[trigger] sum_pows(av[r], bv[c], pn)
                        <= u64::MAX,
                rowi@.len() == j,
                forall|c: int| 0 <= c < j ==> #[trigger] rowi@[c] == cost(av, bv, pn, i as int, c),
                forall|c: int| 0 <= c < j ==> #[trigger] sum_pows(av[i as int], bv[c], pn)
                    <= u64::MAX,
            decreases o - j,
        {
            proof {
                assert(a@[i as int]@ == av[i as int]);
                assert(b@[j as int]@ == bv[j as int]);
                assert(av[i as int].len() == dim);
                assert(bv[j as int].len() == dim);
            }
            let d = match p_norm(&a[i], &b[j], p) {
                Some(d) => d,
                None => {
                    proof {
                        assert(sum_pows(av[i as int], bv[j as int], pn) > u64::MAX);
                        assert(!fits_u64(av, bv, pn));
                    }
                    return Err(DtwError::Overflow);
                },
            };
            let up = mat[i - 1][j];
            let left = rowi[j - 1];
            let diag = mat[i - 1][j - 1];
            let m = min3_u64(up, left, diag);
            let v = match d.checked_add(m) {
                Some(v) => v,
                None => {
                    proof {
                        assert(cost(av, bv, pn, i as int, j as int) == dist(
                            av[i as int],
                            bv[j as int],
                            pn,
                        ) + min3(
                            cost(av, bv, pn, i - 1, j as int),
                            cost(av, bv, pn, i as int, j - 1),
                            cost(av, bv, pn, i - 1, j - 1),
                        ));
                        assert(cost(av, bv, pn, i as int, j as int) > u64::MAX);
                        assert(!fits_u64(av, bv, pn));
                    }
                    return Err(DtwError::Overflow);
                },
            };
            rowi.push(v);
            j = j + 1;
        }
        mat.push(rowi);
        i = i + 1;
    }
    let last_row = &mat[n - 1];
    let res = last_row[o - 1];
    proof {
        assert forall|x: int, y: int| 0 <= x < av.len() && 0 <= y < bv.len() implies #[trigger] cost(
            av,
            bv,
            pn,
            x,
            y,
        ) <= u64::MAX by {
            assert(mat@[x]@[y] == cost(av, bv, pn, x, y));
        }
        assert(fits_u64(av, bv, pn));
        assert(mat@[n - 1]@[o - 1] == cost(av, bv, pn, n - 1, o - 1));
        assert(res == cost(av, bv, pn, n - 1, o - 1));
    }
    Ok(res)
}

/// The DTW distance with the Euclidean order fixed at `p = 2`, the default
/// surface a host environment sees.
pub fn dtw(a: &Vec<Vec<i64>>, b: &Vec<Vec<i64>>) -> (r: Result<u64, DtwError>)
    ensures
        dtw_result(points_view(a@), points_view(b@), 2, r),
{
    dtw_op(a, b, 2)
}

} // verus!
