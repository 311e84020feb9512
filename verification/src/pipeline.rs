//! The matching pipeline: query the index for the nearest companies,
//! apply the eligibility filter in candidate order, and hand back the
//! surviving company names, nearest first. Filtering never re-sorts,
//! and an empty result is a valid outcome, not an error.

use vstd::prelude::*;
use crate::distance::{geo_sq_dist, within_limit, EMBED_LIMIT};
use crate::errors::MatchError;
use crate::filter::{eligible, spec_eligible};
use crate::index::{knn_post, neighbor_ok, EmbeddingIndex, Neighbor};
use crate::records::{Company, Coordinate, EmbeddedCompany, User};

verus! {

/// The names of the eligible candidates, in candidate order.
pub open spec fn spec_match_names(
    points: Seq<EmbeddedCompany>,
    res: Seq<Neighbor>,
    user: User,
) -> Seq<Seq<char>>
    decreases res.len(),
{
    if res.len() == 0 {
        Seq::empty()
    } else {
        let prior = spec_match_names(points, res.drop_last(), user);
        let c = points[res.last().index as int].company;
        if spec_eligible(user, c) {
            prior.push(c.name@)
        } else {
            prior
        }
    }
}

/// Applies the eligibility filter to each candidate in order,
/// keeping the nearest-first order of the survivors.
pub fn filter_candidates(index: &EmbeddingIndex, res: &Vec<Neighbor>, user: &User) -> (names: Vec<
    String>)
    requires
        index.wf(),
        user.wf(),
        forall|m: int|
            0 <= m < res@.len() ==> (#[trigger] res@[m]).index < index.spec_points().len(),
    ensures
        names@.map_values(|s: String| s@) == spec_match_names(index.spec_points(), res@, *user),
{
    let ghost points = index.spec_points();
    let mut names: Vec<String> = Vec::new();
    let mut i: usize = 0;
    proof {
        index.lemma_points_wf();
        assert(res@.take(0) =~= Seq::<Neighbor>::empty());
        assert(names@.map_values(|s: String| s@) =~= Seq::<Seq<char>>::empty());
    }
    while i < res.len()
        invariant
            index.wf(),
            user.wf(),
            points == index.spec_points(),
            forall|m: int| 0 <= m < res@.len() ==> (#[trigger] res@[m]).index < points.len(),
            forall|m: int|
                0 <= m < points.len() ==> (#[trigger] points[m]).wf(index.spec_dim()),
            0 <= i <= res@.len(),
            names@.map_values(|s: String| s@) == spec_match_names(
                points,
                res@.take(i as int),
                *user,
            ),
        decreases res@.len() - i,
    {
        proof {
            assert(res@.take(i + 1).drop_last() =~= res@.take(i as int));
            assert(res@.take(i + 1).last() == res@[i as int]);
        }
        let idx = res[i].index;
        let c = index.point(idx);
        proof {
            assert(index.spec_points()[idx as int].wf(index.spec_dim()));
        }
        let ghost prev = names@;
        if eligible(user, &c.company) {
            let nm = c.company.name.clone();
            names.push(nm);
            proof {
                assert(names@.map_values(|s: String| s@) =~= prev.map_values(|s: String| s@).push(
                    nm@,
                ));
            }
        }
        i = i + 1;
    }
    proof {
        assert(res@.take(res@.len() as int) =~= res@);
    }
    names
}

/// Matches a user against the indexed companies: take the `k` nearest
/// by embedding distance, filter by eligibility, return the survivors'
/// names nearest first. Fails with `DimensionMismatch` exactly when
/// the embedding does not have the index dimension.
pub fn match_user(index: &EmbeddingIndex, user: &User, user_embedding: &Vec<i64>, k: usize) -> (r:
    Result<Vec<String>, MatchError>)
    requires
        index.wf(),
        user.wf(),
        within_limit(user_embedding@, EMBED_LIMIT),
    ensures
        match r {
            Ok(names) => user_embedding@.len() == index.spec_dim() && (exists|res: Seq<Neighbor>|
                #[trigger] knn_post(res, index.spec_points(), user_embedding@, k as int)
                    && names@.map_values(|s: String| s@) == spec_match_names(
                    index.spec_points(),
                    res,
                    *user,
                )),
            Err(e) => e == MatchError::DimensionMismatch && user_embedding@.len()
                != index.spec_dim(),
        },
{
    match index.query(user_embedding, k) {
        Ok(res) => {
            proof {
                assert forall|m: int| 0 <= m < res@.len() implies (#[trigger] res@[m]).index
                    < index.spec_points().len() by {
                    assert(neighbor_ok(res@[m], index.spec_points(), user_embedding@));
                }
            }
            let names = filter_candidates(index, &res, user);
            Ok(names)
        },
        Err(e) => Err(e),
    }
}

/// Runs the match on the outcome of the external encoder call. A
/// missing embedding is fatal for the whole attempt: the result is
/// `EncoderFailure` and no partial result is produced.
pub fn match_user_encoded(
    index: &EmbeddingIndex,
    user: &User,
    encoding: Option<Vec<i64>>,
    k: usize,
) -> (r: Result<Vec<String>, MatchError>)
    requires
        index.wf(),
        user.wf(),
        encoding matches Some(e) ==> within_limit(e@, EMBED_LIMIT),
    ensures
        match encoding {
            None => r == Result::<Vec<String>, MatchError>::Err(MatchError::EncoderFailure),
            Some(e) => match r {
                Ok(names) => e@.len() == index.spec_dim() && (exists|res: Seq<Neighbor>|
                    #[trigger] knn_post(res, index.spec_points(), e@, k as int)
                        && names@.map_values(|s: String| s@) == spec_match_names(
                        index.spec_points(),
                        res,
                        *user,
                    )),
                Err(err) => err == MatchError::DimensionMismatch && e@.len() != index.spec_dim(),
            },
        },
{
    match encoding {
        None => Err(MatchError::EncoderFailure),
        Some(e) => match_user(index, user, &e, k),
    }
}

/// Arg-min by squared coordinate distance: the index of the company
/// nearest to `origin`, the earliest one on ties, without removing
/// anything from the collection.
pub fn nearest_company_index(origin: &Coordinate, companies: &Vec<Company>) -> (r: Option<usize>)
    requires
        origin.wf(),
        forall|m: int| 0 <= m < companies@.len() ==> (#[trigger] companies@[m]).wf(),
    ensures
        match r {
            None => companies@.len() == 0,
            Some(i) => (i as int) < companies@.len() && (forall|m: int|
                0 <= m < companies@.len() ==> geo_sq_dist(
                    *origin,
                    (#[trigger] companies@[m]).location,
                ) >= geo_sq_dist(*origin, companies@[i as int].location)) && (forall|m: int|
                0 <= m < i as int ==> geo_sq_dist(*origin, (#[trigger] companies@[m]).location)
                    > geo_sq_dist(*origin, companies@[i as int].location)),
        },
{
    if companies.len() == 0 {
        return None;
    }
    let mut best: usize = 0;
    let mut best_d = crate::distance::coordinate_sq_distance(origin, &companies[0].location);
    let mut m: usize = 1;
    while m < companies.len()
        invariant
            origin.wf(),
            forall|mm: int| 0 <= mm < companies@.len() ==> (#[trigger] companies@[mm]).wf(),
            1 <= m <= companies@.len(),
            (best as int) < m as int,
            best_d == geo_sq_dist(*origin, companies@[best as int].location),
            forall|mm: int|
                0 <= mm < m as int ==> geo_sq_dist(*origin, (#[trigger] companies@[mm]).location)
                    >= best_d as int,
            forall|mm: int|
                0 <= mm < best as int ==> geo_sq_dist(
                    *origin,
                    (#[trigger] companies@[mm]).location,
                ) > best_d as int,
        decreases companies@.len() - m,
    {
        let d = crate::distance::coordinate_sq_distance(origin, &companies[m].location);
        if d < best_d {
            best = m;
            best_d = d;
        }
        m = m + 1;
    }
    Some(best)
}

} // verus!
