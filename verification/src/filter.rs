//! The eligibility filter: a pure predicate over a (user, company)
//! pair. All three rules must hold; the predicate is total on
//! well-formed records and has no error path.

use vstd::prelude::*;
use crate::distance::{coordinate_sq_distance, geo_sq_dist, GEO_LIMIT};
use crate::records::{Company, User};

verus! {

/// The user's age lies in the company's target range, inclusive.
pub open spec fn spec_age_in_range(user: User, company: Company) -> bool {
    company.target_age_range.min_age <= user.age <= company.target_age_range.max_age
}

/// Either the company has no crypto interest, or the user's balance
/// reaches the required minimum (same currency assumed, no
/// conversion).
pub open spec fn spec_crypto_eligible(user: User, company: Company) -> bool {
    !company.crypto_interest || user.crypto_wallet.balance >= company.wallet_balance_minimum
}

/// The coordinate distance between user and company is at most the
/// company's threshold. Compared through squares, which is exact and
/// equivalent for non-negative thresholds.
pub open spec fn spec_geo_proximity(user: User, company: Company) -> bool {
    geo_sq_dist(user.location, company.location) <= company.distance_threshold
        * company.distance_threshold
}

/// The full eligibility rule: all three sub-predicates hold.
pub open spec fn spec_eligible(user: User, company: Company) -> bool {
    spec_age_in_range(user, company) && spec_crypto_eligible(user, company)
        && spec_geo_proximity(user, company)
}

pub fn age_in_range(user: &User, company: &Company) -> (r: bool)
    ensures
        r == spec_age_in_range(*user, *company),
{
    company.target_age_range.min_age <= user.age && user.age <= company.target_age_range.max_age
}

pub fn crypto_eligible(user: &User, company: &Company) -> (r: bool)
    ensures
        r == spec_crypto_eligible(*user, *company),
{
    !company.crypto_interest || user.crypto_wallet.balance >= company.wallet_balance_minimum
}

pub fn geo_proximity(user: &User, company: &Company) -> (r: bool)
    requires
        user.wf(),
        company.wf(),
    ensures
        r == spec_geo_proximity(*user, *company),
{
    let sq = coordinate_sq_distance(&user.location, &company.location);
    let t = company.distance_threshold;
    proof {
        assert(0 <= t * t <= GEO_LIMIT * GEO_LIMIT) by (nonlinear_arith)
            requires
                0 <= t <= GEO_LIMIT,
        ;
    }
    sq <= t * t
}

/// The eligibility filter. Total on well-formed records: every pair
/// yields a definite boolean, never an error.
pub fn eligible(user: &User, company: &Company) -> (r: bool)
    requires
        user.wf(),
        company.wf(),
    ensures
        r == spec_eligible(*user, *company),
{
    age_in_range(user, company) && crypto_eligible(user, company) && geo_proximity(user, company)
}

/// Eligibility is referentially transparent: it is a function of the
/// (user, company) values alone, so identical inputs always yield the
/// identical boolean.
pub proof fn lemma_eligible_deterministic(u1: User, c1: Company, u2: User, c2: Company)
    requires
        u1 == u2,
        c1 == c2,
    ensures
        spec_eligible(u1, c1) == spec_eligible(u2, c2),
{
}

/// Stronger still: the predicate reads only the structured fields the
/// three rules mention. Two pairs that agree on those decide alike,
/// whatever the pass-through fields hold.
pub proof fn lemma_eligible_reads_only_rule_fields(u1: User, c1: Company, u2: User, c2: Company)
    requires
        u1.age == u2.age,
        u1.crypto_wallet.balance == u2.crypto_wallet.balance,
        u1.location == u2.location,
        c1.target_age_range == c2.target_age_range,
        c1.crypto_interest == c2.crypto_interest,
        c1.wallet_balance_minimum == c2.wallet_balance_minimum,
        c1.location == c2.location,
        c1.distance_threshold == c2.distance_threshold,
    ensures
        spec_eligible(u1, c1) == spec_eligible(u2, c2),
{
}

} // verus!
