use knn_classifier::classifier::KNNClassifier;
use knn_classifier::KnnError;

// Coordinates are in tenths: 10 stands for 1.0.
fn sample(k: usize) -> KNNClassifier {
    let mut c = KNNClassifier::new(k);
    assert_eq!(c.add_data(vec![10, 20], "A"), Ok(()));
    assert_eq!(c.add_data(vec![20, 30], "A"), Ok(()));
    assert_eq!(c.add_data(vec![30, 40], "B"), Ok(()));
    assert_eq!(c.add_data(vec![40, 50], "B"), Ok(()));
    c
}

#[test]
fn three_nearest_vote_a() {
    let c = sample(3);
    assert_eq!(c.predict(vec![15, 25]), Ok("A".to_string()));
}

#[test]
fn single_nearest_is_b() {
    let c = sample(1);
    assert_eq!(c.predict(vec![41, 51]), Ok("B".to_string()));
}

#[test]
fn tie_goes_to_label_of_nearest_point() {
    let c = sample(4);
    // A:2, B:2 for every query; the nearest point decides.
    assert_eq!(c.predict(vec![15, 25]), Ok("A".to_string()));
    assert_eq!(c.predict(vec![41, 51]), Ok("B".to_string()));
    assert_eq!(c.predict(vec![100, 100]), Ok("B".to_string()));
    assert_eq!(c.predict(vec![-100, -100]), Ok("A".to_string()));
}

#[test]
fn tie_in_distance_goes_to_earlier_point() {
    let c = sample(4);
    // (20,30) and (30,40) are equally far; (20,30) was stored first.
    assert_eq!(c.predict(vec![25, 35]), Ok("A".to_string()));
    let mut d = KNNClassifier::new(2);
    assert_eq!(d.add_data(vec![30, 40], "B"), Ok(()));
    assert_eq!(d.add_data(vec![20, 30], "A"), Ok(()));
    assert_eq!(d.predict(vec![25, 35]), Ok("B".to_string()));
}

#[test]
fn predict_is_deterministic() {
    let c = sample(3);
    let first = c.predict(vec![12, 18]);
    assert_eq!(first, Ok("A".to_string()));
    assert_eq!(c.predict(vec![12, 18]), first);
}

#[test]
fn k_above_training_size_is_insufficient_data() {
    let c = sample(5);
    assert_eq!(c.predict(vec![15, 25]), Err(KnnError::InsufficientData));
}

#[test]
fn k_equal_to_training_size_predicts() {
    let c = sample(4);
    assert!(c.predict(vec![0, 0]).is_ok());
}

#[test]
fn empty_training_set_fails() {
    let c = KNNClassifier::new(1);
    assert_eq!(c.predict(vec![1, 2]), Err(KnnError::InsufficientData));
    let c = KNNClassifier::new(3);
    assert_eq!(c.predict(vec![]), Err(KnnError::InsufficientData));
}

#[test]
fn zero_neighbours_is_no_prediction() {
    let c = KNNClassifier::new(0);
    assert_eq!(c.predict(vec![1, 2]), Err(KnnError::NoPrediction));
    let c = sample(0);
    assert_eq!(c.predict(vec![1, 2]), Err(KnnError::NoPrediction));
}

#[test]
fn predict_dimension_mismatch() {
    let c = sample(2);
    assert_eq!(c.predict(vec![1, 2, 3]), Err(KnnError::DimensionMismatch));
    assert_eq!(c.predict(vec![1]), Err(KnnError::DimensionMismatch));
}

#[test]
fn majority_beats_nearest() {
    let mut c = KNNClassifier::new(3);
    assert_eq!(c.add_data(vec![0], "near"), Ok(()));
    assert_eq!(c.add_data(vec![5], "far"), Ok(()));
    assert_eq!(c.add_data(vec![6], "far"), Ok(()));
    assert_eq!(c.predict(vec![0]), Ok("far".to_string()));
}

#[test]
fn add_data_appends_one_point() {
    let mut c = sample(2);
    assert_eq!(c.len(), 4);
    assert_eq!(c.add_data(vec![50, 60], "C"), Ok(()));
    assert_eq!(c.len(), 5);
    assert_eq!(c.k(), 2);
    assert_eq!(c.point(0).features, vec![10, 20]);
    assert_eq!(c.point(0).label, "A");
    assert_eq!(c.point(3).features, vec![40, 50]);
    assert_eq!(c.point(3).label, "B");
    assert_eq!(c.point(4).features, vec![50, 60]);
    assert_eq!(c.point(4).label, "C");
}

#[test]
fn add_data_rejects_other_dimension() {
    let mut c = sample(2);
    assert_eq!(c.add_data(vec![1, 2, 3], "C"), Err(KnnError::DimensionMismatch));
    assert_eq!(c.len(), 4);
    assert_eq!(c.point(3).label, "B");
}

#[test]
fn first_point_sets_dimension() {
    let mut c = KNNClassifier::new(1);
    assert_eq!(c.len(), 0);
    assert_eq!(c.add_data(vec![1, 2, 3], "X"), Ok(()));
    assert_eq!(c.add_data(vec![1, 2], "Y"), Err(KnnError::DimensionMismatch));
    assert_eq!(c.predict(vec![1, 2, 4]), Ok("X".to_string()));
}
