//! Squared and Euclidean distance between feature vectors.
use vstd::prelude::*;

use crate::KnnError;

verus! {

/// Sum of the squared differences of the first `n` coordinates of `a` and `b`.
pub open spec fn sum_sq_diff(a: Seq<i32>, b: Seq<i32>, n: nat) -> int
    decreases n,
{
    if n == 0 {
        0
    } else {
        let i = n - 1;
        sum_sq_diff(a, b, (n - 1) as nat) + (a[i] - b[i]) * (a[i] - b[i])
    }
}

/// Squared Euclidean distance between two vectors of equal length.
pub open spec fn sq_dist(a: Seq<i32>, b: Seq<i32>) -> int {
    sum_sq_diff(a, b, a.len())
}

/// `r` is the Euclidean distance whose square is `x`, rounded down.
pub open spec fn is_floor_sqrt(r: int, x: int) -> bool {
    0 <= r && r * r <= x && x < (r + 1) * (r + 1)
}

proof fn lemma_sum_sq_diff_bounds(a: Seq<i32>, b: Seq<i32>, n: nat)
    requires
        n <= a.len(),
        n <= b.len(),
    ensures
        0 <= sum_sq_diff(a, b, n) <= n * 0x1_0000_0000_0000_0000,
    decreases n,
{
    if n > 0 {
        let i = n - 1;
        let d = a[i] - b[i];
        lemma_sum_sq_diff_bounds(a, b, (n - 1) as nat);
        assert(0 <= d * d <= 0x1_0000_0000_0000_0000) by (nonlinear_arith)
            requires
                -0x1_0000_0000 < d < 0x1_0000_0000,
        ;
        assert((n - 1) * 0x1_0000_0000_0000_0000 + 0x1_0000_0000_0000_0000 == n
            * 0x1_0000_0000_0000_0000) by (nonlinear_arith);
    }
}

/// Squared Euclidean distance between `a` and `b`; fails with
/// `DimensionMismatch` exactly when their lengths differ.
pub fn squared_distance(a: &[i32], b: &[i32]) -> (r: Result<u128, KnnError>)
    ensures
        a@.len() != b@.len() ==> r == Err::<u128, KnnError>(KnnError::DimensionMismatch),
        a@.len() == b@.len() ==> r == Ok::<u128, KnnError>(sq_dist(a@, b@) as u128),
        r is Ok ==> r->Ok_0 as int == sq_dist(a@, b@),
{
    if a.len() != b.len() {
        return Err(KnnError::DimensionMismatch);
    }
    let mut sum: u128 = 0;
    let mut i: usize = 0;
    while i < a.len()
        invariant
            a@.len() == b@.len(),
            i <= a@.len(),
            sum as int == sum_sq_diff(a@, b@, i as nat),
        decreases a@.len() - i,
    {
        proof {
            lemma_sum_sq_diff_bounds(a@, b@, (i + 1) as nat);
            assert((i + 1) * 0x1_0000_0000_0000_0000 <= 0x1_0000_0000_0000_0000
                * 0x1_0000_0000_0000_0000) by (nonlinear_arith)
                requires
                    i + 1 <= 0x1_0000_0000_0000_0000,
            ;
        }
        let d: i64 = (a[i] as i64) - (b[i] as i64);
        let ad: u64 = if d < 0 {
            (-d) as u64
        } else {
            d as u64
        };
        assert((ad as int) * (ad as int) == (d as int) * (d as int)) by (nonlinear_arith)
            requires
                ad == d || ad == -d,
        ;
        assert((ad as int) * (ad as int) < 0x1_0000_0000_0000_0000) by (nonlinear_arith)
            requires
                ad < 0x1_0000_0000,
        ;
        let sq: u128 = (ad as u128) * (ad as u128);
        sum = sum + sq;
        i = i + 1;
    }
    Ok(sum)
}

/// Largest `r` with `r * r <= x`.
pub fn floor_sqrt(x: u128) -> (r: u64)
    ensures
        is_floor_sqrt(r as int, x as int),
{
    let mut lo: u128 = 0;
    let mut hi: u128 = 0x1_0000_0000_0000_0000;
    while hi - lo > 1
        invariant
            lo < hi <= 0x1_0000_0000_0000_0000,
            lo * lo <= x,
            x < hi * hi,
        decreases hi - lo,
    {
        let mid: u128 = lo + (hi - lo) / 2;
        assert(mid * mid <= 0xFFFF_FFFF_FFFF_FFFF * 0xFFFF_FFFF_FFFF_FFFF) by (nonlinear_arith)
            requires
                mid <= 0xFFFF_FFFF_FFFF_FFFF,
        ;
        if mid * mid <= x {
            lo = mid;
        } else {
            hi = mid;
        }
    }
    lo as u64
}

/// Euclidean distance between `a` and `b`, rounded down to an integer; fails
/// with `DimensionMismatch` exactly when their lengths differ.
pub fn euclidean_distance(a: &[i32], b: &[i32]) -> (r: Result<u64, KnnError>)
    ensures
        a@.len() != b@.len() ==> r == Err::<u64, KnnError>(KnnError::DimensionMismatch),
        a@.len() == b@.len() ==> (r is Ok && is_floor_sqrt(r->Ok_0 as int, sq_dist(a@, b@))),
{
    match squared_distance(a, b) {
        Ok(d) => Ok(floor_sqrt(d)),
        Err(e) => Err(e),
    }
}

/// Distance is symmetric: swapping the two vectors changes neither the
/// squared distance nor the rounded Euclidean distance.
pub proof fn lemma_distance_symmetric(a: Seq<i32>, b: Seq<i32>)
    requires
        a.len() == b.len(),
    ensures
        sq_dist(a, b) == sq_dist(b, a),
        forall|r: int| is_floor_sqrt(r, sq_dist(a, b)) <==> is_floor_sqrt(r, sq_dist(b, a)),
{
    lemma_sum_sq_diff_symmetric(a, b, a.len());
}

proof fn lemma_sum_sq_diff_symmetric(a: Seq<i32>, b: Seq<i32>, n: nat)
    requires
        n <= a.len(),
        n <= b.len(),
    ensures
        sum_sq_diff(a, b, n) == sum_sq_diff(b, a, n),
    decreases n,
{
    if n > 0 {
        let i = n - 1;
        lemma_sum_sq_diff_symmetric(a, b, (n - 1) as nat);
        assert((a[i] - b[i]) * (a[i] - b[i]) == (b[i] - a[i]) * (b[i] - a[i])) by (nonlinear_arith);
    }
}

proof fn lemma_sum_sq_diff_zero(a: Seq<i32>, b: Seq<i32>, n: nat)
    requires
        n <= a.len(),
        n <= b.len(),
    ensures
        sum_sq_diff(a, b, n) == 0 <==> forall|j: int| 0 <= j < n ==> a[j] == b[j],
    decreases n,
{
    if n > 0 {
        let i = n - 1;
        let d = a[i] - b[i];
        lemma_sum_sq_diff_zero(a, b, (n - 1) as nat);
        lemma_sum_sq_diff_bounds(a, b, (n - 1) as nat);
        assert(d * d >= 0 && (d * d == 0 <==> d == 0)) by (nonlinear_arith);
        if sum_sq_diff(a, b, n) == 0 {
            assert forall|j: int| 0 <= j < n implies a[j] == b[j] by {
                if j < i {
                }
            }
        }
    }
}

/// Distance is zero exactly when the two vectors are equal; in particular a
/// vector is at distance zero from itself.
pub proof fn lemma_distance_zero_iff_equal(a: Seq<i32>, b: Seq<i32>)
    requires
        a.len() == b.len(),
    ensures
        sq_dist(a, b) == 0 <==> a == b,
        forall|r: int| is_floor_sqrt(r, sq_dist(a, b)) ==> (r == 0 <==> a == b),
        sq_dist(a, a) == 0,
{
    lemma_sum_sq_diff_zero(a, b, a.len());
    lemma_sum_sq_diff_zero(a, a, a.len());
    lemma_sum_sq_diff_bounds(a, b, a.len());
    if sq_dist(a, b) == 0 {
        assert(a =~= b);
    }
    assert forall|r: int| is_floor_sqrt(r, sq_dist(a, b)) implies (r == 0 <==> a == b) by {
        if r >= 1 {
            assert(r * r >= 1) by (nonlinear_arith)
                requires
                    r >= 1,
            ;
        } else {
            assert(r == 0);
            assert((r + 1) * (r + 1) == 1) by (nonlinear_arith)
                requires
                    r == 0,
            ;
            assert(sq_dist(a, b) == 0);
        }
    }
}

} // verus!
