use team_similarity::distance::DistanceError;
use team_similarity::distance::distance_sq;

#[test]
fn distance_is_symmetric() {
    let a = vec![15, 25, 7];
    let b = vec![16, 26, -3];
    assert_eq!(distance_sq(&a, &b), distance_sq(&b, &a));
}

#[test]
fn distance_zero_exactly_for_identical() {
    let a = vec![15, 25];
    assert_eq!(distance_sq(&a, &a), Ok(0));
    let b = vec![15, 26];
    assert_ne!(distance_sq(&a, &b), Ok(0));
}

#[test]
fn distance_exact_value() {
    let a = vec![15, 25];
    let b = vec![16, 26];
    assert_eq!(distance_sq(&a, &b), Ok(2));
    let c = vec![50, 60];
    assert_eq!(distance_sq(&a, &c), Ok(35 * 35 + 35 * 35));
}

#[test]
fn distance_dimension_mismatch() {
    let a = vec![1, 2];
    let b = vec![1, 2, 3];
    assert_eq!(distance_sq(&a, &b), Err(DistanceError::DimensionMismatch));
}
