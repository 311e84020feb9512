use company_match::distance::sq_distance;
use company_match::errors::MatchError;
use company_match::index::EmbeddingIndex;
use company_match::records::{Address, AgeRange, Company, Coordinate, EmbeddedCompany};

fn plain_address() -> Address {
    Address {
        street: String::from("1 Main St"),
        city: String::from("Springfield"),
        state: String::from("IL"),
        zip_code: String::from("62701"),
        country: String::from("US"),
    }
}

fn company(name: &str) -> Company {
    Company {
        name: String::from(name),
        location: Coordinate { latitude: 0, longitude: 0 },
        distance_threshold: 1_000_000,
        description: String::from("a company"),
        target_age_range: AgeRange { min_age: 0, max_age: 120 },
        crypto_interest: false,
        wallet_balance_minimum: 0,
        user_interests: vec![String::from("chess")],
        address: plain_address(),
        contact_number: String::from("555-0101"),
    }
}

fn embedded(name: &str, embedding: Vec<i64>) -> EmbeddedCompany {
    EmbeddedCompany { company: company(name), embedding }
}

#[test]
fn query_with_large_k_returns_all_points_sorted() {
    // Five points in 2-d; k = 10 exceeds the index size, so all five
    // come back, ascending by distance, every point exactly once.
    let points = vec![
        embedded("a", vec![10, 0]),
        embedded("b", vec![0, 2]),
        embedded("c", vec![5, 5]),
        embedded("d", vec![1, 1]),
        embedded("e", vec![-7, 0]),
    ];
    let index = EmbeddingIndex::build(points, 2).unwrap();
    let res = index.query(&vec![0, 0], 10).unwrap();
    assert_eq!(res.len(), 5);
    let mut seen = [false; 5];
    for w in res.windows(2) {
        assert!(
            w[0].sq_distance < w[1].sq_distance
                || (w[0].sq_distance == w[1].sq_distance && w[0].index < w[1].index)
        );
    }
    for nb in &res {
        assert!(!seen[nb.index]);
        seen[nb.index] = true;
    }
    // Exact squared distances from the origin: d 2, b 4, e 49, c 50, a 100.
    let order: Vec<usize> = res.iter().map(|nb| nb.index).collect();
    assert_eq!(order, vec![3, 1, 4, 2, 0]);
    let dists: Vec<i64> = res.iter().map(|nb| nb.sq_distance).collect();
    assert_eq!(dists, vec![2, 4, 49, 50, 100]);
}

#[test]
fn query_vector_equal_to_stored_point_comes_first_at_distance_zero() {
    let points = vec![
        embedded("a", vec![10, 0, 0]),
        embedded("b", vec![3, 4, 5]),
        embedded("c", vec![-2, -2, -2]),
    ];
    let index = EmbeddingIndex::build(points, 3).unwrap();
    let res = index.query(&vec![3, 4, 5], 2).unwrap();
    assert_eq!(res.len(), 2);
    assert_eq!(res[0].index, 1);
    assert_eq!(res[0].sq_distance, 0);
}

#[test]
fn equal_distances_break_ties_by_insertion_order() {
    let points = vec![
        embedded("far", vec![100, 100]),
        embedded("twin1", vec![1, 0]),
        embedded("twin2", vec![1, 0]),
    ];
    let index = EmbeddingIndex::build(points, 2).unwrap();
    let res = index.query(&vec![1, 0], 3).unwrap();
    assert_eq!(res[0].index, 1);
    assert_eq!(res[0].sq_distance, 0);
    assert_eq!(res[1].index, 2);
    assert_eq!(res[1].sq_distance, 0);
    assert_eq!(res[2].index, 0);
}

#[test]
fn k_smaller_than_index_returns_k_nearest() {
    let points = vec![
        embedded("a", vec![9]),
        embedded("b", vec![1]),
        embedded("c", vec![4]),
        embedded("d", vec![2]),
    ];
    let index = EmbeddingIndex::build(points, 1).unwrap();
    let res = index.query(&vec![0], 2).unwrap();
    assert_eq!(res.len(), 2);
    assert_eq!(res[0].index, 1);
    assert_eq!(res[0].sq_distance, 1);
    assert_eq!(res[1].index, 3);
    assert_eq!(res[1].sq_distance, 4);
}

#[test]
fn empty_index_returns_empty_result() {
    let index = EmbeddingIndex::build(Vec::new(), 4).unwrap();
    assert_eq!(index.len(), 0);
    let res = index.query(&vec![0, 0, 0, 0], 3).unwrap();
    assert!(res.is_empty());
}

#[test]
fn build_rejects_wrong_dimension() {
    let points = vec![embedded("a", vec![1, 2]), embedded("b", vec![1, 2, 3])];
    let err = EmbeddingIndex::build(points, 2).unwrap_err();
    assert_eq!(err, MatchError::InvalidDimension);
}

#[test]
fn build_rejects_malformed_company() {
    let mut bad = embedded("bad", vec![1, 2]);
    bad.company.target_age_range = AgeRange { min_age: 50, max_age: 20 };
    let err = EmbeddingIndex::build(vec![bad], 2).unwrap_err();
    assert_eq!(err, MatchError::MalformedRecord);
}

#[test]
fn build_rejects_out_of_range_embedding_component() {
    let huge = embedded("huge", vec![1_000_001, 0]);
    let err = EmbeddingIndex::build(vec![huge], 2).unwrap_err();
    assert_eq!(err, MatchError::MalformedRecord);
}

#[test]
fn query_rejects_wrong_dimension() {
    let index = EmbeddingIndex::build(vec![embedded("a", vec![1, 2])], 2).unwrap();
    let err = index.query(&vec![1, 2, 3], 1).unwrap_err();
    assert_eq!(err, MatchError::DimensionMismatch);
}

#[test]
fn point_coordinates_are_readable_by_axis() {
    let e = embedded("a", vec![7, -3]);
    assert_eq!(e.at(0), 7);
    assert_eq!(e.at(1), -3);
}

#[test]
fn squared_distance_is_symmetric() {
    let a = vec![3, -4, 12];
    let b = vec![-1, 7, 2];
    assert_eq!(sq_distance(&a, &b), sq_distance(&b, &a));
    assert_eq!(sq_distance(&a, &b), 16 + 121 + 100);
    assert_eq!(sq_distance(&a, &a), 0);
}

#[test]
fn larger_index_agrees_with_linear_scan() {
    // A bigger, irregular point set: the tree search with pruning
    // must agree with a brute-force scan over the stored points.
    let mut points = Vec::new();
    for i in 0..40i64 {
        let x = (i * 37) % 101 - 50;
        let y = (i * 61) % 89 - 44;
        let z = (i * 13) % 71 - 35;
        points.push(embedded(&format!("p{}", i), vec![x, y, z]));
    }
    let index = EmbeddingIndex::build(points, 3).unwrap();
    let q = vec![5, -3, 8];
    let k = 7;
    let res = index.query(&q, k).unwrap();
    assert_eq!(res.len(), k);
    let mut expected: Vec<(i64, usize)> = (0..index.len())
        .map(|i| {
            let e = &index.point(i).embedding;
            let d: i64 = e
                .iter()
                .zip(q.iter())
                .map(|(a, b)| (a - b) * (a - b))
                .sum();
            (d, i)
        })
        .collect();
    expected.sort();
    for (m, nb) in res.iter().enumerate() {
        assert_eq!((nb.sq_distance, nb.index), expected[m]);
    }
}
