use knn_classifier::distance::{euclidean_distance, floor_sqrt, squared_distance};
use knn_classifier::KnnError;

#[test]
fn squared_distance_exact_value() {
    assert_eq!(squared_distance(&[0, 0], &[3, 4]), Ok(25));
    assert_eq!(squared_distance(&[1, 2, 3], &[4, 6, 3]), Ok(25));
}

#[test]
fn euclidean_distance_exact_value() {
    assert_eq!(euclidean_distance(&[0, 0], &[3, 4]), Ok(5));
}

#[test]
fn euclidean_distance_rounds_down() {
    // sqrt(2) and sqrt(8)
    assert_eq!(euclidean_distance(&[0, 0], &[1, 1]), Ok(1));
    assert_eq!(euclidean_distance(&[0, 0], &[2, 2]), Ok(2));
}

#[test]
fn distance_is_symmetric() {
    let a = [7, -3, 12];
    let b = [-1, 5, 0];
    assert_eq!(squared_distance(&a, &b), squared_distance(&b, &a));
    assert_eq!(euclidean_distance(&a, &b), euclidean_distance(&b, &a));
}

#[test]
fn distance_to_self_is_zero() {
    let a = [7, -3, 12];
    assert_eq!(squared_distance(&a, &a), Ok(0));
    assert_eq!(euclidean_distance(&a, &a), Ok(0));
    assert_eq!(euclidean_distance(&[], &[]), Ok(0));
}

#[test]
fn distance_of_distinct_vectors_is_positive() {
    assert_eq!(euclidean_distance(&[5, 5], &[5, 6]), Ok(1));
}

#[test]
fn distance_dimension_mismatch() {
    assert_eq!(squared_distance(&[1, 2], &[1, 2, 3]), Err(KnnError::DimensionMismatch));
    assert_eq!(euclidean_distance(&[1], &[]), Err(KnnError::DimensionMismatch));
}

#[test]
fn distance_extreme_coordinates() {
    let d: u128 = (u32::MAX as u128) * (u32::MAX as u128);
    assert_eq!(squared_distance(&[i32::MIN], &[i32::MAX]), Ok(d));
    assert_eq!(squared_distance(&[i32::MIN, i32::MIN], &[i32::MAX, i32::MAX]), Ok(2 * d));
    assert_eq!(euclidean_distance(&[i32::MIN], &[i32::MAX]), Ok(u32::MAX as u64));
}

#[test]
fn floor_sqrt_values() {
    assert_eq!(floor_sqrt(0), 0);
    assert_eq!(floor_sqrt(1), 1);
    assert_eq!(floor_sqrt(15), 3);
    assert_eq!(floor_sqrt(16), 4);
    assert_eq!(floor_sqrt(u128::MAX), u64::MAX);
}
