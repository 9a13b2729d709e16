use team_similarity::data::DataLoader;
use team_similarity::data::HeaderError;
use team_similarity::data::classify_headers;
use team_similarity::data::is_feature_column;
use team_similarity::data::year_matches;

#[test]
fn data_test_data_loader_new() {
    let data_loader = DataLoader::new("test_file.csv", "2023");
    assert_eq!(data_loader.file_path, "test_file.csv");
    assert_eq!(data_loader.year, "2023");
}

#[test]
fn tests_test_data_loader_new() {
    let data_loader = DataLoader::new("test_file.csv", "2023");
    assert_eq!(data_loader.file_path, "test_file.csv");
    assert_eq!(data_loader.year, "2023");
}

#[test]
fn classify_headers_splits_columns() {
    let headers = vec![
        String::from("team_id"),
        String::from("game_id"),
        String::from("stat1"),
        String::from("stat2"),
    ];
    let plan = classify_headers(&headers).unwrap();
    assert_eq!(plan.team_idx, 0);
    assert_eq!(plan.game_idx, 1);
    assert_eq!(plan.feature_cols, vec![2, 3]);
}

#[test]
fn classify_headers_missing_team_id() {
    let headers = vec![String::from("game_id"), String::from("stat1")];
    assert_eq!(
        classify_headers(&headers),
        Err(HeaderError::MissingTeamIdColumn)
    );
}

#[test]
fn classify_headers_missing_game_id() {
    let headers = vec![String::from("team_id"), String::from("stat1")];
    assert_eq!(
        classify_headers(&headers),
        Err(HeaderError::MissingGameIdColumn)
    );
}

#[test]
fn classify_headers_skips_non_feature_names() {
    let headers = vec![
        String::from("team_id"),
        String::from("game_id"),
        String::from("stat one"),
        String::from("stat_two"),
    ];
    let plan = classify_headers(&headers).unwrap();
    assert_eq!(plan.feature_cols, vec![3]);
}

#[test]
fn feature_column_names() {
    assert!(is_feature_column("stat1"));
    assert!(is_feature_column("goals_for"));
    assert!(!is_feature_column("stat 1"));
    assert!(!is_feature_column("stat-1"));
}

#[test]
fn year_filter_compares_leading_characters() {
    assert!(year_matches("20230101", "2023"));
    assert!(!year_matches("20220101", "2023"));
    assert!(!year_matches("20230101", "202"));
    assert!(!year_matches("20230101", "20230"));
}
