//! Squared Euclidean distance over fixed-point vectors and coordinates.
//!
//! Every comparison in the crate goes through squared distances: in
//! exact integer arithmetic the square is computable without rounding,
//! and because the square root is monotonic the ordering (and any
//! threshold comparison against a squared threshold) agrees with the
//! ordering of the real Euclidean metric.

use vstd::prelude::*;
use crate::records::Coordinate;

verus! {

/// Largest magnitude allowed for an embedding component.
pub const EMBED_LIMIT: i64 = 1_000_000;

/// Largest magnitude allowed for a latitude, longitude or distance
/// threshold.
pub const GEO_LIMIT: i64 = 1_000_000_000;

/// Largest embedding dimension the index accepts. Together with
/// `EMBED_LIMIT` it keeps every squared distance within `i64`.
pub const DIM_LIMIT: usize = 1_000_000;

/// Every component of `s` lies in `[-m, m]`.
pub open spec fn within_limit(s: Seq<i64>, m: i64) -> bool {
    forall|i: int| 0 <= i < s.len() ==> -m <= #[trigger] s[i] <= m
}

/// Sum over all positions of the squared componentwise difference.
pub open spec fn sq_dist(a: Seq<i64>, b: Seq<i64>) -> int
    decreases a.len(),
{
    if a.len() == 0 {
        0
    } else {
        sq_dist(a.drop_last(), b.drop_last()) + (a.last() - b.last()) * (a.last() - b.last())
    }
}

/// A squared distance is never negative.
pub proof fn lemma_sq_dist_nonneg(a: Seq<i64>, b: Seq<i64>)
    requires
        a.len() == b.len(),
    ensures
        sq_dist(a, b) >= 0,
    decreases a.len(),
{
    if a.len() > 0 {
        lemma_sq_dist_nonneg(a.drop_last(), b.drop_last());
        assert((a.last() - b.last()) * (a.last() - b.last()) >= 0) by (nonlinear_arith);
    }
}

/// The metric is symmetric: swapping the endpoints does not change it.
pub proof fn lemma_sq_dist_symmetric(a: Seq<i64>, b: Seq<i64>)
    requires
        a.len() == b.len(),
    ensures
        sq_dist(a, b) == sq_dist(b, a),
    decreases a.len(),
{
    if a.len() > 0 {
        lemma_sq_dist_symmetric(a.drop_last(), b.drop_last());
        assert((a.last() - b.last()) * (a.last() - b.last()) == (b.last() - a.last()) * (b.last()
            - a.last())) by (nonlinear_arith);
    }
}

/// The squared distance is zero exactly when the vectors are equal.
pub proof fn lemma_sq_dist_zero(a: Seq<i64>, b: Seq<i64>)
    requires
        a.len() == b.len(),
    ensures
        sq_dist(a, b) == 0 <==> a == b,
    decreases a.len(),
{
    if a.len() == 0 {
        assert(a =~= b);
    } else {
        lemma_sq_dist_zero(a.drop_last(), b.drop_last());
        lemma_sq_dist_nonneg(a.drop_last(), b.drop_last());
        let x = a.last();
        let y = b.last();
        assert((x - y) * (x - y) >= 0 && (((x - y) * (x - y) == 0) <==> x == y))
            by (nonlinear_arith);
        if sq_dist(a, b) == 0 {
            assert(a.drop_last() == b.drop_last());
            assert forall|i: int| 0 <= i < a.len() implies a[i] == b[i] by {
                if i < a.len() - 1 {
                    assert(a[i] == a.drop_last()[i]);
                    assert(b[i] == b.drop_last()[i]);
                }
            }
            assert(a =~= b);
        }
        if a == b {
            assert(a.drop_last() =~= b.drop_last());
        }
    }
}

/// Any single coordinate difference bounds the whole sum from below.
pub proof fn lemma_sq_dist_term_bound(a: Seq<i64>, b: Seq<i64>, i: int)
    requires
        a.len() == b.len(),
        0 <= i < a.len(),
    ensures
        sq_dist(a, b) >= (a[i] - b[i]) * (a[i] - b[i]),
    decreases a.len(),
{
    if i == a.len() - 1 {
        lemma_sq_dist_nonneg(a.drop_last(), b.drop_last());
    } else {
        lemma_sq_dist_term_bound(a.drop_last(), b.drop_last(), i);
        assert((a.last() - b.last()) * (a.last() - b.last()) >= 0) by (nonlinear_arith);
    }
}

/// Squared Euclidean distance between two equal-length vectors.
pub fn sq_distance(a: &Vec<i64>, b: &Vec<i64>) -> (r: i64)
    requires
        a@.len() == b@.len(),
        a@.len() <= DIM_LIMIT,
        within_limit(a@, EMBED_LIMIT),
        within_limit(b@, EMBED_LIMIT),
    ensures
        r == sq_dist(a@, b@),
{
    let n = a.len();
    let mut acc: i64 = 0;
    let mut i: usize = 0;
    proof {
        assert(a@.take(0) =~= Seq::<i64>::empty());
    }
    while i < n
        invariant
            n == a@.len() == b@.len(),
            n <= DIM_LIMIT,
            within_limit(a@, EMBED_LIMIT),
            within_limit(b@, EMBED_LIMIT),
            0 <= i <= n,
            acc == sq_dist(a@.take(i as int), b@.take(i as int)),
            0 <= acc <= i * (4 * EMBED_LIMIT * EMBED_LIMIT),
        decreases n - i,
    {
        proof {
            assert(a@.take(i as int) =~= a@.take(i + 1).drop_last());
            assert(b@.take(i as int) =~= b@.take(i + 1).drop_last());
            assert(a@.take(i + 1).last() == a@[i as int]);
            assert(b@.take(i + 1).last() == b@[i as int]);
        }
        let dx = a[i] - b[i];
        proof {
            assert(0 <= dx * dx <= 4 * EMBED_LIMIT * EMBED_LIMIT) by (nonlinear_arith)
                requires
                    -2 * EMBED_LIMIT <= dx <= 2 * EMBED_LIMIT,
            ;
            assert((i + 1) * (4 * EMBED_LIMIT * EMBED_LIMIT) == i * (4 * EMBED_LIMIT * EMBED_LIMIT)
                + 4 * EMBED_LIMIT * EMBED_LIMIT) by (nonlinear_arith);
            assert(i * (4 * EMBED_LIMIT * EMBED_LIMIT) <= DIM_LIMIT as int * (4 * EMBED_LIMIT
                * EMBED_LIMIT)) by (nonlinear_arith)
                requires
                    0 <= i <= DIM_LIMIT as int,
            ;
        }
        let term = dx * dx;
        acc = acc + term;
        i = i + 1;
    }
    proof {
        assert(a@.take(n as int) =~= a@);
        assert(b@.take(n as int) =~= b@);
    }
    acc
}

/// Squared Euclidean distance between two coordinates, computed
/// directly on latitude and longitude values (no geodesic correction).
pub open spec fn geo_sq_dist(a: Coordinate, b: Coordinate) -> int {
    (a.latitude - b.latitude) * (a.latitude - b.latitude) + (a.longitude - b.longitude) * (
    a.longitude - b.longitude)
}

/// The coordinate metric is symmetric as well.
pub proof fn lemma_geo_sq_dist_symmetric(a: Coordinate, b: Coordinate)
    ensures
        geo_sq_dist(a, b) == geo_sq_dist(b, a),
{
    assert((a.latitude - b.latitude) * (a.latitude - b.latitude) == (b.latitude - a.latitude) * (
    b.latitude - a.latitude)) by (nonlinear_arith);
    assert((a.longitude - b.longitude) * (a.longitude - b.longitude) == (b.longitude - a.longitude)
        * (b.longitude - a.longitude)) by (nonlinear_arith);
}

/// Squared coordinate distance, exact in `i64`.
pub fn coordinate_sq_distance(a: &Coordinate, b: &Coordinate) -> (r: i64)
    requires
        a.wf(),
        b.wf(),
    ensures
        r == geo_sq_dist(*a, *b),
{
    let dx = a.latitude - b.latitude;
    let dy = a.longitude - b.longitude;
    proof {
        assert(0 <= dx * dx <= (4 * GEO_LIMIT) * GEO_LIMIT) by (nonlinear_arith)
            requires
                -2 * GEO_LIMIT <= dx <= 2 * GEO_LIMIT,
        ;
        assert(0 <= dy * dy <= (4 * GEO_LIMIT) * GEO_LIMIT) by (nonlinear_arith)
            requires
                -2 * GEO_LIMIT <= dy <= 2 * GEO_LIMIT,
        ;
    }
    dx * dx + dy * dy
}

} // verus!
