//! The pointwise distance metric: a Minkowski (p-norm) distance between two
//! points of equal dimension, over integer coordinates.
//!
//! For an integer order `p >= 1` the distance between points `a` and `b` is
//! the floor of the p-th root of `sum_k |a[k] - b[k]|^p`; `p = 1` gives the
//! Manhattan distance and `p = 2` the (floored) Euclidean distance.

use vstd::prelude::*;

verus! {

use vstd::arithmetic::mul::lemma_mul_upper_bound;
use vstd::arithmetic::power::{
    lemma0_pow, lemma_pow0, lemma_pow1, lemma_pow_increases, lemma_pow_positive,
    lemma_square_is_pow2, pow,
};
use vstd::math::abs;

/// `sum_k |a[k] - b[k]|^p` over all coordinates `k`, the p-th power of the
/// p-norm before the root is taken.
pub open spec fn sum_pows(a: Seq<i64>, b: Seq<i64>, p: nat) -> int
    decreases a.len(),
{
    if a.len() == 0 {
        0
    } else {
        sum_pows(a.drop_last(), b.drop_last(), p) + pow(abs(a.last() - b.last()) as int, p)
    }
}

/// The largest `r <= c` with `r^p <= s`, or `0` when there is none.
pub open spec fn root_below(s: int, p: nat, c: nat) -> int
    decreases c,
{
    if pow(c as int, p) <= s {
        c as int
    } else if c == 0 {
        0
    } else {
        root_below(s, p, (c - 1) as nat)
    }
}

/// The integer p-th root of `s`: the largest `r` with `r^p <= s`
/// (for `s >= 0` and `p >= 1`).
pub open spec fn floor_root(s: int, p: nat) -> int {
    root_below(s, p, if s >= 0 { s as nat } else { 0nat })
}

/// A power of a non-negative base is non-negative.
pub proof fn lemma_pow_nonneg(b: int, e: nat)
    requires
        b >= 0,
    ensures
        pow(b, e) >= 0,
{
    if b == 0 {
        if e == 0 {
            lemma_pow0(b);
        } else {
            lemma0_pow(e);
        }
    } else {
        lemma_pow_positive(b, e);
    }
}

/// Exponentiation is monotone in a non-negative base.
pub proof fn lemma_pow_base_le(x: int, y: int, e: nat)
    requires
        0 <= x <= y,
    ensures
        pow(x, e) <= pow(y, e),
    decreases e,
{
    if e == 0 {
        lemma_pow0(x);
        lemma_pow0(y);
    } else {
        lemma_pow_base_le(x, y, (e - 1) as nat);
        lemma_pow_nonneg(x, (e - 1) as nat);
        lemma_mul_upper_bound(x, y, pow(x, (e - 1) as nat), pow(y, (e - 1) as nat));
        reveal(pow);
    }
}

proof fn lemma_root_below_props(s: int, p: nat, c: nat)
    requires
        s >= 0,
        p >= 1,
    ensures
        0 <= root_below(s, p, c) <= c,
        pow(root_below(s, p, c), p) <= s,
        forall|t: int| root_below(s, p, c) < t <= c ==> #[trigger] pow(t, p) > s,
    decreases c,
{
    if pow(c as int, p) <= s {
    } else if c == 0 {
        lemma0_pow(p);
        assert(false);
    } else {
        lemma_root_below_props(s, p, (c - 1) as nat);
    }
}

/// `floor_root(s, p)` is characterized by `r^p <= s < (r+1)^p`.
pub proof fn lemma_floor_root(s: int, p: nat)
    requires
        s >= 0,
        p >= 1,
    ensures
        0 <= floor_root(s, p) <= s,
        pow(floor_root(s, p), p) <= s,
        s < pow(floor_root(s, p) + 1, p),
{
    lemma_root_below_props(s, p, s as nat);
    let r = floor_root(s, p);
    if r == s {
        lemma_pow1(s + 1);
        lemma_pow_increases((s + 1) as nat, 1, p);
    } else {
        assert(pow(r + 1, p) > s);
    }
}

/// No two distinct values satisfy the floor-root characterization.
pub proof fn lemma_floor_root_unique(s: int, p: nat, r: int)
    requires
        s >= 0,
        p >= 1,
        0 <= r,
        pow(r, p) <= s,
        s < pow(r + 1, p),
    ensures
        r == floor_root(s, p),
{
    lemma_floor_root(s, p);
    let f = floor_root(s, p);
    if r < f {
        lemma_pow_base_le(r + 1, f, p);
    } else if f < r {
        lemma_pow_base_le(f + 1, r, p);
    }
}

/// `|x - y|` of two machine integers, exact and free of overflow.
fn abs_diff(x: i64, y: i64) -> (d: u64)
    ensures
        d == abs(x - y),
{
    if x >= y {
        ((x as i128) - (y as i128)) as u64
    } else {
        ((y as i128) - (x as i128)) as u64
    }
}

/// `b^e`, or `None` when the power exceeds `u64::MAX`.
fn pow_checked(b: u64, e: u32) -> (r: Option<u64>)
    ensures
        match r {
            Some(v) => v == pow(b as int, e as nat),
            None => pow(b as int, e as nat) > u64::MAX,
        },
{
    let mut acc: u64 = 1;
    let mut i: u32 = 0;
    proof {
        lemma_pow0(b as int);
    }
    while i < e
        invariant
            i <= e,
            acc == pow(b as int, i as nat),
        decreases e - i,
    {
        proof {
            assert(pow(b as int, (i + 1) as nat) == b * pow(b as int, i as nat)) by {
                reveal(pow);
            }
        }
        match acc.checked_mul(b) {
            Some(v) => {
                acc = v;
            },
            None => {
                proof {
                    assert(acc * b == b * acc) by (nonlinear_arith);
                    if b == 0 {
                        assert(acc * b == 0) by (nonlinear_arith)
                            requires
                                b == 0,
                        ;
                        assert(false);
                    }
                    lemma_pow_increases(b as nat, (i + 1) as nat, e as nat);
                }
                return None;
            },
        }
        i = i + 1;
    }
    Some(acc)
}

/// The integer p-th root of `s`, by binary search.
fn floor_root_u64(s: u64, p: u32) -> (r: u64)
    requires
        p >= 1,
    ensures
        r == floor_root(s as int, p as nat),
{
    if p == 1 {
        proof {
            lemma_pow1(s as int);
            lemma_pow1(s as int + 1);
            lemma_floor_root_unique(s as int, 1, s as int);
        }
        return s;
    }
    let mut lo: u64 = 0;
    let mut hi: u64 = 4294967296;
    proof {
        lemma0_pow(p as nat);
        lemma_square_is_pow2(4294967296int);
        lemma_pow_increases(4294967296nat, 2, p as nat);
    }
    while lo + 1 < hi
        invariant
            p >= 1,
            lo < hi <= 4294967296,
            pow(lo as int, p as nat) <= s as int,
            (s as int) < pow(hi as int, p as nat),
        decreases hi - lo,
    {
        let mid = lo + (hi - lo) / 2;
        match pow_checked(mid, p) {
            Some(v) => {
                if v <= s {
                    lo = mid;
                } else {
                    hi = mid;
                }
            },
            None => {
                hi = mid;
            },
        }
    }
    proof {
        lemma_floor_root_unique(s as int, p as nat, lo as int);
    }
    lo
}

/// The whole sum is at least any prefix of it.
proof fn lemma_sum_pows_prefix(a: Seq<i64>, b: Seq<i64>, p: nat, m: int)
    requires
        a.len() == b.len(),
        0 <= m <= a.len(),
    ensures
        sum_pows(a.take(m), b.take(m), p) <= sum_pows(a, b, p),
    decreases a.len(),
{
    if m == a.len() {
        assert(a.take(m) =~= a);
        assert(b.take(m) =~= b);
    } else {
        lemma_sum_pows_prefix(a.drop_last(), b.drop_last(), p, m);
        assert(a.drop_last().take(m) =~= a.take(m));
        assert(b.drop_last().take(m) =~= b.take(m));
        lemma_pow_nonneg(abs(a.last() - b.last()) as int, p);
    }
}

/// A sum of powers of absolute values is non-negative.
pub proof fn lemma_sum_pows_nonneg(a: Seq<i64>, b: Seq<i64>, p: nat)
    ensures
        sum_pows(a, b, p) >= 0,
    decreases a.len(),
{
    if a.len() == 0 {
    } else {
        lemma_sum_pows_nonneg(a.drop_last(), b.drop_last(), p);
        lemma_pow_nonneg(abs(a.last() - b.last()) as int, p);
    }
}

/// The p-norm between the points `a` and `b`: the floor of the p-th root of
/// the sum of the p-th powers of the coordinate differences, or `None` when
/// that sum exceeds `u64::MAX`.
pub fn p_norm(a: &Vec<i64>, b: &Vec<i64>, p: u32) -> (r: Option<u64>)
    requires
        a@.len() == b@.len(),
        p >= 1,
    ensures
        match r {
            Some(v) => sum_pows(a@, b@, p as nat) <= u64::MAX && v == floor_root(
                sum_pows(a@, b@, p as nat),
                p as nat,
            ),
            None => sum_pows(a@, b@, p as nat) > u64::MAX,
        },
{
    let mut sum: u64 = 0;
    let mut k: usize = 0;
    proof {
        assert(a@.take(0) =~= Seq::<i64>::empty());
        assert(b@.take(0) =~= Seq::<i64>::empty());
    }
    while k < a.len()
        invariant
            a@.len() == b@.len(),
            p >= 1,
            k <= a@.len(),
            sum == sum_pows(a@.take(k as int), b@.take(k as int), p as nat),
        decreases a@.len() - k,
    {
        let ghost pre = sum_pows(a@.take(k as int), b@.take(k as int), p as nat);
        let d = abs_diff(a[k], b[k]);
        proof {
            assert(a@.take(k + 1).drop_last() =~= a@.take(k as int));
            assert(b@.take(k + 1).drop_last() =~= b@.take(k as int));
            assert(sum_pows(a@.take(k + 1), b@.take(k + 1), p as nat) == pre + pow(
                d as int,
                p as nat,
            ));
            lemma_sum_pows_prefix(a@, b@, p as nat, k + 1);
            lemma_pow_nonneg(d as int, p as nat);
        }
        let t = match pow_checked(d, p) {
            Some(t) => t,
            None => {
                return None;
            },
        };
        let s2 = match sum.checked_add(t) {
            Some(v) => v,
            None => {
                return None;
            },
        };
        sum = s2;
        k = k + 1;
    }
    proof {
        assert(a@.take(a@.len() as int) =~= a@);
        assert(b@.take(b@.len() as int) =~= b@);
    }
    Some(floor_root_u64(sum, p))
}

} // verus!
