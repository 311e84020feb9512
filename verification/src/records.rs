//! The data model: users, companies and their embedded form.
//!
//! All numeric fields are exact fixed-point integers in caller-chosen
//! units; the well-formedness predicates bound them so that every
//! squared distance in the crate fits in `i64`.

use vstd::prelude::*;
use vstd::string::StringExecFns;
use crate::distance::{within_limit, EMBED_LIMIT, GEO_LIMIT};

verus! {

/// A geographic position. Latitude and longitude are fixed-point
/// values (for example micro-degrees); no unit conversion is applied.
#[derive(Clone, Copy, Debug, PartialEq, Eq, Structural)]
pub struct Coordinate {
    pub latitude: i64,
    pub longitude: i64,
}

impl Coordinate {
    /// Both components are small enough for exact squared distances.
    pub open spec fn wf(self) -> bool {
        -GEO_LIMIT <= self.latitude <= GEO_LIMIT && -GEO_LIMIT <= self.longitude <= GEO_LIMIT
    }
}

/// Postal address. Pass-through only: the matching logic never reads
/// these fields.
#[derive(Clone, Debug)]
pub struct Address {
    pub street: String,
    pub city: String,
    pub state: String,
    pub zip_code: String,
    pub country: String,
}

/// A wallet balance in fixed-point units of one currency. Balances are
/// compared without conversion, so both sides of a comparison are
/// assumed to be in the same currency.
#[derive(Clone, Debug)]
pub struct CryptoWallet {
    pub balance: i64,
    pub currency: String,
}

/// Inclusive age range a company targets.
#[derive(Clone, Copy, Debug, PartialEq, Eq, Structural)]
pub struct AgeRange {
    pub min_age: u32,
    pub max_age: u32,
}

impl AgeRange {
    /// The range is not inverted.
    pub open spec fn wf(self) -> bool {
        self.min_age <= self.max_age
    }
}

/// A user to be matched. Identity and contact fields are pass-through.
#[derive(Clone, Debug)]
pub struct User {
    pub first_name: String,
    pub last_name: String,
    pub phone_number: String,
    pub email: String,
    pub location: Coordinate,
    pub address: Address,
    pub age: u32,
    pub crypto_wallet: CryptoWallet,
    /// Ordered: the order decides the text handed to the encoder.
    pub interests: Vec<String>,
}

impl User {
    pub open spec fn wf(self) -> bool {
        self.location.wf()
    }

    /// A well-formed user has an in-range location.
    pub fn validate(&self) -> (r: bool)
        ensures
            r == self.wf(),
    {
        -GEO_LIMIT <= self.location.latitude && self.location.latitude <= GEO_LIMIT
            && -GEO_LIMIT <= self.location.longitude && self.location.longitude <= GEO_LIMIT
    }
}

/// A company record as handed in by the loader.
#[derive(Clone, Debug)]
pub struct Company {
    pub name: String,
    pub location: Coordinate,
    /// Largest coordinate distance at which the company accepts a
    /// user, in the same fixed-point units as the coordinates.
    pub distance_threshold: i64,
    pub description: String,
    pub target_age_range: AgeRange,
    /// When set, the user must hold at least `wallet_balance_minimum`.
    pub crypto_interest: bool,
    pub wallet_balance_minimum: i64,
    /// Ordered: the order decides the text handed to the encoder.
    pub user_interests: Vec<String>,
    pub address: Address,
    pub contact_number: String,
}

impl Company {
    pub open spec fn wf(self) -> bool {
        &&& self.location.wf()
        &&& 0 <= self.distance_threshold <= GEO_LIMIT
        &&& self.target_age_range.wf()
    }

    /// Rejects malformed records: inverted age range, negative or
    /// out-of-range threshold, out-of-range location.
    pub fn validate(&self) -> (r: bool)
        ensures
            r == self.wf(),
    {
        -GEO_LIMIT <= self.location.latitude && self.location.latitude <= GEO_LIMIT
            && -GEO_LIMIT <= self.location.longitude && self.location.longitude <= GEO_LIMIT && 0
            <= self.distance_threshold && self.distance_threshold <= GEO_LIMIT
            && self.target_age_range.min_age <= self.target_age_range.max_age
    }
}

/// A company together with the embedding of its joined interest text.
/// Created once before index construction and immutable afterwards.
#[derive(Clone, Debug)]
pub struct EmbeddedCompany {
    pub company: Company,
    pub embedding: Vec<i64>,
}

impl EmbeddedCompany {
    /// The embedding has the configured dimension and bounded
    /// components, and the company record itself is well formed.
    pub open spec fn wf(self, dim: int) -> bool {
        &&& self.company.wf()
        &&& self.embedding@.len() == dim
        &&& within_limit(self.embedding@, EMBED_LIMIT)
    }

    /// Coordinate of the embedding along `axis`: the point-by-axis
    /// view the spatial index partitions on.
    pub fn at(&self, axis: usize) -> (r: i64)
        requires
            axis < self.embedding@.len(),
        ensures
            r == self.embedding@[axis as int],
    {
        self.embedding[axis]
    }
}

/// The interest texts joined with single spaces, oldest first.
pub open spec fn join_with_spaces(parts: Seq<Seq<char>>) -> Seq<char>
    decreases parts.len(),
{
    if parts.len() == 0 {
        Seq::empty()
    } else if parts.len() == 1 {
        parts[0]
    } else {
        join_with_spaces(parts.drop_last()) + seq![' '] + parts.last()
    }
}

/// Joins interest strings into the single text handed to the encoder.
/// The join order follows the stored order, so the text — and with a
/// deterministic encoder the embedding — is deterministic.
pub fn join_interests(parts: &Vec<String>) -> (r: String)
    ensures
        r@ == join_with_spaces(parts@.map_values(|s: String| s@)),
{
    let ghost views = parts@.map_values(|s: String| s@);
    let mut r = String::new();
    let mut i: usize = 0;
    proof {
        assert(views.take(0) =~= Seq::<Seq<char>>::empty());
    }
    while i < parts.len()
        invariant
            views == parts@.map_values(|s: String| s@),
            0 <= i <= parts@.len(),
            r@ == join_with_spaces(views.take(i as int)),
        decreases parts@.len() - i,
    {
        proof {
            assert(views.take(i + 1).drop_last() =~= views.take(i as int));
            assert(views.take(i + 1).last() == views[i as int]);
            assert(views[i as int] == parts@[i as int]@);
            reveal_strlit(" ");
        }
        if i > 0 {
            r.append(" ");
            proof {
                assert(" "@ =~= seq![' ']);
            }
        }
        r.append(parts[i].as_str());
        proof {
            if i == 0 {
                assert(views.take(1) =~= seq![views[0]]);
                assert(join_with_spaces(views.take(1)) == views[0]);
            }
        }
        i = i + 1;
    }
    proof {
        assert(views.take(parts@.len() as int) =~= views);
    }
    r
}

} // verus!
