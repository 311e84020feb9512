use company_match::filter::{age_in_range, crypto_eligible, eligible, geo_proximity};
use company_match::records::{Address, AgeRange, Company, Coordinate, CryptoWallet, User};

// Fixed-point scale used by the scenarios: one unit = one millionth,
// so 0.1 becomes 100_000 and a threshold of 5.0 becomes 5_000_000.
const SCALE: i64 = 1_000_000;

fn plain_address() -> Address {
    Address {
        street: String::from("1 Main St"),
        city: String::from("Springfield"),
        state: String::from("IL"),
        zip_code: String::from("62701"),
        country: String::from("US"),
    }
}

fn user_at(lat: i64, lon: i64, age: u32, balance: i64) -> User {
    User {
        first_name: String::from("Ada"),
        last_name: String::from("Lovelace"),
        phone_number: String::from("555-0100"),
        email: String::from("ada@example.com"),
        location: Coordinate { latitude: lat, longitude: lon },
        address: plain_address(),
        age,
        crypto_wallet: CryptoWallet { balance, currency: String::from("BTC") },
        interests: vec![String::from("chess"), String::from("math")],
    }
}

fn company_at(name: &str, lat: i64, lon: i64, threshold: i64) -> Company {
    Company {
        name: String::from(name),
        location: Coordinate { latitude: lat, longitude: lon },
        distance_threshold: threshold,
        description: String::from("a company"),
        target_age_range: AgeRange { min_age: 18, max_age: 40 },
        crypto_interest: false,
        wallet_balance_minimum: 0,
        user_interests: vec![String::from("chess")],
        address: plain_address(),
        contact_number: String::from("555-0101"),
    }
}

#[test]
fn scenario_close_company_is_eligible() {
    // User age 30, wallet balance 0, at (0, 0); company age range
    // [18, 40], no crypto interest, at (0.1, 0.1), threshold 5.0.
    // Distance is about 0.14 <= 5.0, so the user is eligible.
    let user = user_at(0, 0, 30, 0);
    let company = company_at("CloseCo", SCALE / 10, SCALE / 10, 5 * SCALE);
    assert!(user.validate());
    assert!(company.validate());
    assert!(age_in_range(&user, &company));
    assert!(crypto_eligible(&user, &company));
    assert!(geo_proximity(&user, &company));
    assert!(eligible(&user, &company));
}

#[test]
fn scenario_tight_threshold_is_not_eligible() {
    // Same user, but the company only accepts users within 0.05:
    // 0.14 > 0.05, so the match fails on proximity alone.
    let user = user_at(0, 0, 30, 0);
    let company = company_at("TightCo", SCALE / 10, SCALE / 10, SCALE / 20);
    assert!(age_in_range(&user, &company));
    assert!(crypto_eligible(&user, &company));
    assert!(!geo_proximity(&user, &company));
    assert!(!eligible(&user, &company));
}

#[test]
fn scenario_low_balance_is_not_eligible() {
    // The company wants crypto users holding at least 100; the user
    // holds 50. Every other criterion passes.
    let user = user_at(0, 0, 30, 50);
    let mut company = company_at("CoinCo", 0, 0, 5 * SCALE);
    company.crypto_interest = true;
    company.wallet_balance_minimum = 100;
    assert!(age_in_range(&user, &company));
    assert!(geo_proximity(&user, &company));
    assert!(!crypto_eligible(&user, &company));
    assert!(!eligible(&user, &company));
}

#[test]
fn eligibility_is_deterministic() {
    // Identical inputs give the identical boolean, call after call.
    let user = user_at(3, 4, 25, 10);
    let company = company_at("SameCo", 0, 0, 10);
    let first = eligible(&user, &company);
    let second = eligible(&user, &company);
    assert_eq!(first, second);
    assert!(first);
}

#[test]
fn age_bounds_are_inclusive() {
    let company = company_at("EdgeCo", 0, 0, SCALE);
    let at_min = user_at(0, 0, 18, 0);
    let at_max = user_at(0, 0, 40, 0);
    let below = user_at(0, 0, 17, 0);
    let above = user_at(0, 0, 41, 0);
    assert!(eligible(&at_min, &company));
    assert!(eligible(&at_max, &company));
    assert!(!eligible(&below, &company));
    assert!(!eligible(&above, &company));
}

#[test]
fn distance_exactly_at_threshold_is_eligible() {
    // (3, 4) is at distance exactly 5 from the origin.
    let user = user_at(0, 0, 30, 0);
    let company = company_at("BoundaryCo", 3, 4, 5);
    assert!(eligible(&user, &company));
    let tighter = company_at("JustOutCo", 3, 4, 4);
    assert!(!eligible(&user, &tighter));
}

#[test]
fn malformed_records_fail_validation() {
    let mut inverted = company_at("InvertedCo", 0, 0, 10);
    inverted.target_age_range = AgeRange { min_age: 40, max_age: 18 };
    assert!(!inverted.validate());
    let mut negative = company_at("NegativeCo", 0, 0, 10);
    negative.distance_threshold = -1;
    assert!(!negative.validate());
    assert!(company_at("FineCo", 0, 0, 0).validate());
}
