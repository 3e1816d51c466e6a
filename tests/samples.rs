use stilts::{MLBenchmarkRunner, MappyComparisonRunner};

#[test]
fn test_tags_cycle_through_twenty() {
    let tags = MappyComparisonRunner::generate_test_tags(45);
    assert_eq!(tags.len(), 45);
    assert_eq!(tags[0], "2007");
    assert_eq!(tags[19], "genitals");
    assert_eq!(tags[20], "2007");
    assert_eq!(tags[44], "biped");
    assert!(MappyComparisonRunner::generate_test_tags(0).is_empty());
}

#[test]
fn ml_test_data_varies_set_sizes() {
    let data = MLBenchmarkRunner::generate_ml_test_data(7, 3);
    assert_eq!(data.len(), 7);
    let sizes: Vec<usize> = data.iter().map(|s| s.len()).collect();
    assert_eq!(sizes, vec![3, 4, 5, 6, 7, 3, 4]);
    assert_eq!(data[0], vec!["anthro", "biped", "canid"]);
    // set 1 starts at entry 7; set 6 starts at entry 42 and wraps
    assert_eq!(data[1][0], "domestic_dog");
    assert_eq!(data[6], vec!["tools", "traditionalmedia(artwork)", "vulva", "white_background"]);
}
