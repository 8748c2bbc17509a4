use knn_classifier::knn::KNNClassifier;

#[test]
fn test_creation() {
    let clf: KNNClassifier<String> = KNNClassifier::new(3);
    assert_eq!(clf.training_data(), None);
    assert_eq!(clf.training_labels(), None);
}

#[test]
fn test_fit() {
    let mut clf = KNNClassifier::new(3);

    let train: Vec<Vec<i16>> = vec![
        vec![0, 1, 2, 2, 3],
        vec![5, 4, 3, 4, 5],
    ];

    let labels: Vec<String> = vec![
        "good".to_string(),
        "bad".to_string(),
    ];

    clf.fit(train.clone(), labels.clone());

    assert_eq!(clf.training_data(), Some(&train));
    assert_eq!(clf.training_labels(), Some(&labels));
}

#[test]
fn test_predict() {
    let mut clf = KNNClassifier::new(1);

    let train: Vec<Vec<i16>> = vec![
        vec![0, 1, 2, 2, 3],
        vec![5, 4, 3, 4, 5],
        vec![0, 0, 0, 0, 0],
    ];

    let labels: Vec<String> = vec![
        "good".to_string(),
        "bad".to_string(),
        "good".to_string(),
    ];

    clf.fit(train.clone(), labels.clone());

    let test = vec![
        vec![1, 1, 1, 1, 1],
    ];

    let pred = clf.predict(&test).unwrap();

    assert_eq!(pred[0], "good".to_string());
}

#[test]
fn untrained_classifier_predicts_nothing() {
    let clf: KNNClassifier<String> = KNNClassifier::new(3);
    assert!(clf.predict_one(&vec![1, 2, 3]).is_none());
    assert!(clf.predict(&vec![vec![1, 2, 3], vec![4, 5, 6]]).is_none());
    assert!(clf.predict(&Vec::new()).is_none());
}

#[test]
fn predict_one_nearest_neighbour() {
    let mut clf = KNNClassifier::new(1);
    clf.fit(
        vec![vec![0, 1, 2, 2, 3], vec![5, 4, 3, 4, 5], vec![0, 0, 0, 0, 0]],
        vec!["good".to_string(), "bad".to_string(), "good".to_string()],
    );
    assert_eq!(clf.predict_one(&vec![1, 1, 1, 1, 1]), Some("good".to_string()));
}

#[test]
fn k_larger_than_training_set_uses_all_points() {
    let mut clf = KNNClassifier::new(3);
    clf.fit(
        vec![vec![0, 0], vec![10, 10]],
        vec!["near".to_string(), "far".to_string()],
    );
    // Both training points vote; the 1-1 tie goes to the label whose
    // neighbour was encountered first.
    assert_eq!(clf.predict_one(&vec![1, 1]), Some("near".to_string()));
    assert_eq!(clf.predict_one(&vec![9, 9]), Some("near".to_string()));
}

#[test]
fn k_zero_predicts_nothing() {
    let mut clf = KNNClassifier::new(0);
    clf.fit(
        vec![vec![0, 0], vec![1, 1]],
        vec!["a".to_string(), "b".to_string()],
    );
    assert!(clf.predict_one(&vec![0, 0]).is_none());
    assert!(clf.predict_one(&vec![5, 5]).is_none());
}

#[test]
fn predict_returns_one_label_per_query_in_order() {
    let mut clf = KNNClassifier::new(1);
    clf.fit(
        vec![vec![0, 0], vec![100, 100], vec![-50, -50]],
        vec!["origin".to_string(), "high".to_string(), "low".to_string()],
    );
    let queries = vec![
        vec![99, 99],
        vec![1, -1],
        vec![-49, -49],
        vec![98, 102],
    ];
    let pred = clf.predict(&queries).unwrap();
    assert_eq!(pred.len(), 4);
    assert_eq!(pred[0], "high".to_string());
    assert_eq!(pred[1], "origin".to_string());
    assert_eq!(pred[2], "low".to_string());
    assert_eq!(pred[3], "high".to_string());
}

#[test]
fn majority_vote_among_three_neighbours() {
    let mut clf = KNNClassifier::new(3);
    clf.fit(
        vec![vec![0, 0], vec![0, 1], vec![1, 0], vec![50, 50]],
        vec!["a".to_string(), "a".to_string(), "b".to_string(), "b".to_string()],
    );
    // The three nearest points of the query carry labels a, a, b.
    assert_eq!(clf.predict_one(&vec![0, 0]), Some("a".to_string()));
}

#[test]
fn refitting_replaces_training_set() {
    let mut clf = KNNClassifier::new(1);
    clf.fit(vec![vec![0]], vec!["old".to_string()]);
    assert_eq!(clf.predict_one(&vec![0]), Some("old".to_string()));
    let train: Vec<Vec<i16>> = vec![vec![1]];
    let labels: Vec<String> = vec!["new".to_string()];
    clf.fit(train.clone(), labels.clone());
    assert_eq!(clf.training_data(), Some(&train));
    assert_eq!(clf.training_labels(), Some(&labels));
    assert_eq!(clf.predict_one(&vec![0]), Some("new".to_string()));
}

#[test]
fn integer_labels_work_too() {
    let mut clf: KNNClassifier<u64> = KNNClassifier::new(1);
    clf.fit(vec![vec![0, 0], vec![10, 0]], vec![7, 8]);
    assert_eq!(clf.predict_one(&vec![1, 0]), Some(7));
    assert_eq!(clf.predict_one(&vec![9, 0]), Some(8));
}
