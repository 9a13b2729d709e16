//! The distance engine: squared Euclidean distance between fixed-point
//! feature vectors.
//!
//! Feature-vector entries are fixed-point numbers: a caller picks a scale
//! (say, thousandths) and stores each real coordinate as a scaled `i64`.
//! All comparisons the library makes — the edge cutoff of the similarity
//! graph and the ranking of nearest neighbours — are monotone in the
//! distance, so the squared distance (an exact integer) carries the same
//! information as the Euclidean distance itself and never needs rounding.

use vstd::prelude::*;

verus! {

/// The largest magnitude a fixed-point coordinate may have.  With every
/// coordinate in `[-COORD_LIMIT, COORD_LIMIT]`, one squared difference is at
/// most `4 * 10^18` (which fits an `i64`) and a sum of up to `usize::MAX`
/// such terms fits a `u128`, so squared distances are computed exactly.
pub const COORD_LIMIT: i64 = 1_000_000_000;

/// The one error the core components raise: two vectors of unequal length
/// were compared.
#[derive(Clone, Copy, Debug, PartialEq, Eq, Structural)]
pub enum DistanceError {
    DimensionMismatch,
}

/// A single coordinate is within the fixed-point domain.
pub open spec fn coord_ok(x: i64) -> bool {
    -COORD_LIMIT <= x <= COORD_LIMIT
}

/// Every coordinate of a vector is within the fixed-point domain.
pub open spec fn coords_ok(s: Seq<i64>) -> bool {
    forall|i: int| 0 <= i < s.len() ==> coord_ok(#[trigger] s[i])
}

/// Squared Euclidean distance: the sum of squared per-dimension
/// differences.  Meaningful when `a.len() == b.len()`; defined over the
/// shared prefix otherwise so that it is total.
pub open spec fn dist_sq(a: Seq<i64>, b: Seq<i64>) -> int
    decreases a.len(),
{
    if a.len() == 0 || b.len() == 0 {
        0
    } else {
        let d = a.last() - b.last();
        dist_sq(a.drop_last(), b.drop_last()) + d * d
    }
}

/// A squared distance is never negative.
pub proof fn lemma_dist_sq_nonneg(a: Seq<i64>, b: Seq<i64>)
    ensures
        dist_sq(a, b) >= 0,
    decreases a.len(),
{
    if a.len() != 0 && b.len() != 0 {
        lemma_dist_sq_nonneg(a.drop_last(), b.drop_last());
        let d = a.last() - b.last();
        assert(d * d >= 0) by (nonlinear_arith);
    }
}

/// Distance is symmetric: `dist_sq(a, b) == dist_sq(b, a)`.
pub proof fn lemma_dist_sq_symmetric(a: Seq<i64>, b: Seq<i64>)
    ensures
        dist_sq(a, b) == dist_sq(b, a),
    decreases a.len(),
{
    if a.len() != 0 && b.len() != 0 {
        lemma_dist_sq_symmetric(a.drop_last(), b.drop_last());
        let d = a.last() - b.last();
        let e = b.last() - a.last();
        assert(d * d == e * e) by (nonlinear_arith)
            requires d == -e;
    }
}

/// Distance is zero exactly for identical vectors (of equal length).
pub proof fn lemma_dist_sq_zero_iff_identical(a: Seq<i64>, b: Seq<i64>)
    requires
        a.len() == b.len(),
    ensures
        dist_sq(a, b) == 0 <==> a == b,
    decreases a.len(),
{
    if a.len() == 0 {
        assert(a =~= b);
    } else {
        lemma_dist_sq_zero_iff_identical(a.drop_last(), b.drop_last());
        lemma_dist_sq_nonneg(a.drop_last(), b.drop_last());
        let d = a.last() - b.last();
        assert(d * d >= 0 && (d * d == 0 <==> d == 0)) by (nonlinear_arith);
        if dist_sq(a, b) == 0 {
            assert(a =~= a.drop_last().push(a.last()));
            assert(b =~= b.drop_last().push(b.last()));
            assert(a =~= b);
        } else {
            if a == b {
                assert(a.drop_last() =~= b.drop_last());
            }
        }
    }
}

/// Squared Euclidean distance of two equal-length vectors, computed
/// exactly in `u128` arithmetic.
pub(crate) fn dist_sq_exec(a: &Vec<i64>, b: &Vec<i64>) -> (r: u128)
    requires
        a@.len() == b@.len(),
        coords_ok(a@),
        coords_ok(b@),
    ensures
        r == dist_sq(a@, b@),
{
    let n = a.len();
    let mut acc: u128 = 0;
    let mut i: usize = 0;
    while i < n
        invariant
            n == a@.len() == b@.len(),
            coords_ok(a@),
            coords_ok(b@),
            0 <= i <= n,
            acc == dist_sq(a@.take(i as int), b@.take(i as int)),
            acc <= i * 4_000_000_000_000_000_000,
        decreases n - i,
    {
        let ai = a[i];
        let bi = b[i];
        assert(coord_ok(ai) && coord_ok(bi));
        let d: i64 = ai - bi;
        assert(-2_000_000_000 <= d <= 2_000_000_000 ==> 0 <= d * d
            <= 4_000_000_000_000_000_000) by (nonlinear_arith);
        let sq: i64 = d * d;
        proof {
            assert(a@.take(i + 1).drop_last() =~= a@.take(i as int));
            assert(b@.take(i + 1).drop_last() =~= b@.take(i as int));
            assert(i * 4_000_000_000_000_000_000 + 4_000_000_000_000_000_000 == (i + 1)
                * 4_000_000_000_000_000_000) by (nonlinear_arith);
            assert((i + 1) * 4_000_000_000_000_000_000 <= n * 4_000_000_000_000_000_000
                < u128::MAX) by (nonlinear_arith)
                requires i + 1 <= n && n <= usize::MAX;
        }
        acc = acc + (sq as u128);
        i = i + 1;
    }
    proof {
        assert(a@.take(n as int) =~= a@);
        assert(b@.take(n as int) =~= b@);
    }
    acc
}

/// Compares the lengths of the two vectors and returns their exact squared
/// Euclidean distance, or `DimensionMismatch` when the lengths differ.
pub fn distance_sq(a: &Vec<i64>, b: &Vec<i64>) -> (r: Result<u128, DistanceError>)
    requires
        coords_ok(a@),
        coords_ok(b@),
    ensures
        a@.len() == b@.len() ==> (r matches Ok(d) && d == dist_sq(a@, b@)),
        a@.len() != b@.len() ==> r == Err::<u128, DistanceError>(
            DistanceError::DimensionMismatch,
        ),
{
    if a.len() != b.len() {
        Err(DistanceError::DimensionMismatch)
    } else {
        Ok(dist_sq_exec(a, b))
    }
}

} // verus!

