use team_similarity::distance::DistanceError;
use team_similarity::features::TeamFeatures;
use team_similarity::knn::find_nearest_teams;
use team_similarity::knn::knn;

#[test]
fn knn_test_knn() {
    // the points (1,1), (2,2), (3,3) and the query (1.5, 1.5), in tenths
    let data = vec![vec![10, 10], vec![20, 20], vec![30, 30]];
    let query = vec![15, 15];

    let neighbors = knn(&data, &query, 2);
    assert_eq!(neighbors.len(), 2);
    assert!(neighbors[0].1 <= neighbors[1].1);
}

#[test]
fn tests_test_knn() {
    let data = vec![vec![10, 10], vec![20, 20], vec![30, 30]];
    let query = vec![15, 15];

    let neighbors = knn(&data, &query, 2);
    assert_eq!(neighbors.len(), 2);
    assert!(neighbors[0].1 <= neighbors[1].1);
}

#[test]
fn knn_tie_broken_by_index() {
    let data = vec![vec![10, 10], vec![20, 20], vec![30, 30]];
    let query = vec![15, 15];

    let neighbors = knn(&data, &query, 2);
    // both nearest points are at squared distance 25 + 25
    assert_eq!(neighbors, vec![(0, 50), (1, 50)]);
}

#[test]
fn knn_k_larger_than_point_count() {
    let data = vec![vec![0, 0], vec![3, 4]];
    let query = vec![0, 0];
    let neighbors = knn(&data, &query, 10);
    assert_eq!(neighbors, vec![(0, 0), (1, 25)]);
}

#[test]
fn knn_k_zero() {
    let data = vec![vec![0, 0]];
    let query = vec![0, 0];
    assert_eq!(knn(&data, &query, 0), vec![]);
}

#[test]
fn knn_test_find_nearest_teams() {
    let mut team_averages = TeamFeatures::new();
    team_averages.insert("TeamA", vec![1, 1]);
    team_averages.insert("TeamB", vec![2, 2]);
    team_averages.insert("TeamC", vec![3, 3]);
    team_averages.insert("TeamD", vec![4, 4]);

    let nearest_teams = find_nearest_teams(&team_averages, 2).unwrap();

    assert!(nearest_teams.contains_key("TeamA"));
    let list = nearest_teams.get("TeamA").unwrap();
    assert_eq!(list.len(), 2);
    assert_eq!(list[0].0, "TeamB");
    assert_eq!(list[1].0, "TeamC");
}

#[test]
fn tests_test_find_nearest_teams() {
    let mut team_averages = TeamFeatures::new();
    team_averages.insert("TeamA", vec![1, 1]);
    team_averages.insert("TeamB", vec![2, 2]);
    team_averages.insert("TeamC", vec![3, 3]);

    let nearest_teams = find_nearest_teams(&team_averages, 2).unwrap();
    assert!(nearest_teams.contains_key("TeamA"));
    let list = nearest_teams.get("TeamA").unwrap();
    assert_eq!(list.len(), 2);
    assert_eq!(list[0].0, "TeamB");
}

#[test]
fn find_nearest_exact_distances() {
    // the distances sqrt(2) and 2*sqrt(2) appear squared: 2 and 8
    let mut tf = TeamFeatures::new();
    tf.insert("TeamA", vec![1, 1]);
    tf.insert("TeamB", vec![2, 2]);
    tf.insert("TeamC", vec![3, 3]);
    tf.insert("TeamD", vec![4, 4]);

    let nearest = find_nearest_teams(&tf, 2).unwrap();
    let list = nearest.get("TeamA").unwrap();
    assert_eq!(list[0], (String::from("TeamB"), 2));
    assert_eq!(list[1], (String::from("TeamC"), 8));
}

#[test]
fn find_nearest_never_lists_the_team_itself() {
    let mut tf = TeamFeatures::new();
    tf.insert("TeamA", vec![1, 1]);
    tf.insert("TeamB", vec![2, 2]);
    tf.insert("TeamC", vec![3, 3]);

    let nearest = find_nearest_teams(&tf, 5).unwrap();
    for team in ["TeamA", "TeamB", "TeamC"] {
        let list = nearest.get(team).unwrap();
        assert_eq!(list.len(), 2);
        for (neighbor, _) in list {
            assert_ne!(neighbor, team);
        }
    }
}

#[test]
fn find_nearest_tie_broken_by_identifier() {
    // "zz" and "aa" are both at squared distance 25 from "mid"
    let mut tf = TeamFeatures::new();
    tf.insert("mid", vec![0, 0]);
    tf.insert("zz", vec![3, 4]);
    tf.insert("aa", vec![5, 0]);

    let nearest = find_nearest_teams(&tf, 2).unwrap();
    let list = nearest.get("mid").unwrap();
    assert_eq!(list[0], (String::from("aa"), 25));
    assert_eq!(list[1], (String::from("zz"), 25));
}

#[test]
fn find_nearest_k_zero() {
    let mut tf = TeamFeatures::new();
    tf.insert("TeamA", vec![1, 1]);
    tf.insert("TeamB", vec![2, 2]);
    let nearest = find_nearest_teams(&tf, 0).unwrap();
    assert_eq!(nearest.get("TeamA").unwrap().len(), 0);
    assert_eq!(nearest.get("TeamB").unwrap().len(), 0);
}

#[test]
fn find_nearest_empty_mapping() {
    let tf = TeamFeatures::new();
    let nearest = find_nearest_teams(&tf, 3).unwrap();
    assert_eq!(nearest.len(), 0);
}

#[test]
fn find_nearest_dimension_mismatch() {
    let mut tf = TeamFeatures::new();
    tf.insert("TeamA", vec![1, 1]);
    tf.insert("TeamB", vec![2, 2, 2]);
    assert!(matches!(
        find_nearest_teams(&tf, 1),
        Err(DistanceError::DimensionMismatch)
    ));
}

#[test]
fn insert_replaces_existing_entry() {
    let mut tf = TeamFeatures::new();
    tf.insert("TeamA", vec![1, 1]);
    tf.insert("TeamA", vec![9, 9]);
    assert_eq!(tf.len(), 1);
    assert_eq!(tf.get("TeamA"), Some(&vec![9, 9]));
    assert_eq!(tf.get("TeamB"), None);
}
