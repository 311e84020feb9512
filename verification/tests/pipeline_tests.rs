use company_match::errors::MatchError;
use company_match::index::EmbeddingIndex;
use company_match::numeric::{int_to_bool_array, sum_of_ints};
use company_match::pipeline::{match_user, match_user_encoded, nearest_company_index};
use company_match::records::{
    join_interests, Address, AgeRange, Company, Coordinate, CryptoWallet, EmbeddedCompany, User,
};

fn plain_address() -> Address {
    Address {
        street: String::from("1 Main St"),
        city: String::from("Springfield"),
        state: String::from("IL"),
        zip_code: String::from("62701"),
        country: String::from("US"),
    }
}

fn user() -> User {
    User {
        first_name: String::from("Ada"),
        last_name: String::from("Lovelace"),
        phone_number: String::from("555-0100"),
        email: String::from("ada@example.com"),
        location: Coordinate { latitude: 0, longitude: 0 },
        address: plain_address(),
        age: 30,
        crypto_wallet: CryptoWallet { balance: 0, currency: String::from("BTC") },
        interests: vec![String::from("chess"), String::from("math")],
    }
}

fn company(name: &str) -> Company {
    Company {
        name: String::from(name),
        location: Coordinate { latitude: 0, longitude: 0 },
        distance_threshold: 1_000_000,
        description: String::from("a company"),
        target_age_range: AgeRange { min_age: 18, max_age: 40 },
        crypto_interest: false,
        wallet_balance_minimum: 0,
        user_interests: vec![String::from("chess")],
        address: plain_address(),
        contact_number: String::from("555-0101"),
    }
}

fn embedded(name: &str, embedding: Vec<i64>) -> EmbeddedCompany {
    EmbeddedCompany { company: company(name), embedding }
}

#[test]
fn five_companies_queried_with_k_ten_all_survive_in_order() {
    // Index of 5 companies, query with k = 10: all 5 are returned,
    // nearest first, and the order survives filtering untouched.
    let points = vec![
        embedded("delta", vec![3, 0]),
        embedded("alpha", vec![1, 0]),
        embedded("echo", vec![4, 0]),
        embedded("bravo", vec![0, 2]),
        embedded("charlie", vec![2, 2]),
    ];
    let index = EmbeddingIndex::build(points, 2).unwrap();
    let names = match_user(&index, &user(), &vec![0, 0], 10).unwrap();
    assert_eq!(
        names,
        vec![
            String::from("alpha"),
            String::from("bravo"),
            String::from("charlie"),
            String::from("delta"),
            String::from("echo"),
        ]
    );
}

#[test]
fn ineligible_candidates_are_dropped_without_resorting() {
    let mut far = company("far_away");
    far.location = Coordinate { latitude: 5_000_000, longitude: 0 };
    far.distance_threshold = 10;
    let mut greedy = company("greedy");
    greedy.crypto_interest = true;
    greedy.wallet_balance_minimum = 1_000;
    let points = vec![
        EmbeddedCompany { company: company("near"), embedding: vec![1] },
        EmbeddedCompany { company: far, embedding: vec![2] },
        EmbeddedCompany { company: greedy, embedding: vec![3] },
        EmbeddedCompany { company: company("last"), embedding: vec![4] },
    ];
    let index = EmbeddingIndex::build(points, 1).unwrap();
    let names = match_user(&index, &user(), &vec![0], 10).unwrap();
    assert_eq!(names, vec![String::from("near"), String::from("last")]);
}

#[test]
fn no_eligible_candidate_is_a_valid_empty_result() {
    let mut strict = company("strict");
    strict.target_age_range = AgeRange { min_age: 50, max_age: 60 };
    let points = vec![EmbeddedCompany { company: strict, embedding: vec![0] }];
    let index = EmbeddingIndex::build(points, 1).unwrap();
    let names = match_user(&index, &user(), &vec![0], 10).unwrap();
    assert!(names.is_empty());
}

#[test]
fn wrong_embedding_dimension_is_a_mismatch_error() {
    let index = EmbeddingIndex::build(vec![embedded("a", vec![1, 2])], 2).unwrap();
    let err = match_user(&index, &user(), &vec![1, 2, 3], 10).unwrap_err();
    assert_eq!(err, MatchError::DimensionMismatch);
}

#[test]
fn missing_encoding_is_an_encoder_failure() {
    let index = EmbeddingIndex::build(vec![embedded("a", vec![1, 2])], 2).unwrap();
    let err = match_user_encoded(&index, &user(), None, 10).unwrap_err();
    assert_eq!(err, MatchError::EncoderFailure);
    let ok = match_user_encoded(&index, &user(), Some(vec![0, 0]), 10).unwrap();
    assert_eq!(ok, vec![String::from("a")]);
}

#[test]
fn nearest_company_index_picks_the_closest() {
    let origin = Coordinate { latitude: 42_420_000, longitude: 56_300_000 };
    let mut ubisoft = company("Ubisoft");
    ubisoft.location = Coordinate { latitude: 40_400_000, longitude: 56_300_000 };
    let mut google = company("Google");
    google.location = Coordinate { latitude: -42_420_000, longitude: 56_300_000 };
    let companies = vec![ubisoft, google];
    assert_eq!(nearest_company_index(&origin, &companies), Some(0));
}

#[test]
fn nearest_company_index_keeps_first_on_ties() {
    let origin = Coordinate { latitude: 0, longitude: 0 };
    let mut east = company("east");
    east.location = Coordinate { latitude: 0, longitude: 7 };
    let mut west = company("west");
    west.location = Coordinate { latitude: 0, longitude: -7 };
    assert_eq!(nearest_company_index(&origin, &vec![east, west]), Some(0));
    assert_eq!(nearest_company_index(&origin, &Vec::new()), None);
}

#[test]
fn join_interests_uses_single_spaces_in_order() {
    let parts = vec![String::from("rust"), String::from("chess"), String::from("gardens")];
    assert_eq!(join_interests(&parts), String::from("rust chess gardens"));
    assert_eq!(join_interests(&vec![String::from("solo")]), String::from("solo"));
    assert_eq!(join_interests(&Vec::new()), String::new());
}

#[test]
fn int_to_bool_array_gives_little_endian_bits() {
    assert_eq!(int_to_bool_array(0), Vec::<bool>::new());
    assert_eq!(int_to_bool_array(-5), Vec::<bool>::new());
    assert_eq!(int_to_bool_array(1), vec![true]);
    assert_eq!(int_to_bool_array(6), vec![false, true, true]);
    assert_eq!(int_to_bool_array(13), vec![true, false, true, true]);
}

#[test]
fn sum_of_ints_adds_exactly() {
    assert_eq!(sum_of_ints(103, 125), 228);
    assert_eq!(sum_of_ints(-7, 3), -4);
}
