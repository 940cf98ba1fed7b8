use speeko::averaging::{group_indices_by_word, median_length, sorted_lengths};

#[test]
fn groups_by_word_in_alphabetical_order() {
    let words = vec![
        "stop".to_string(),
        "start".to_string(),
        "stop".to_string(),
        "go".to_string(),
    ];
    let groups = group_indices_by_word(&words);
    assert_eq!(
        groups,
        vec![
            ("go".to_string(), vec![3]),
            ("start".to_string(), vec![1]),
            ("stop".to_string(), vec![0, 2])
        ]
    );
    assert!(group_indices_by_word(&[]).is_empty());
}

#[test]
fn median_of_lengths() {
    assert_eq!(sorted_lengths(&[30, 10, 20, 10]), vec![10, 10, 20, 30]);
    assert_eq!(median_length(&[30, 10, 20]), 20);
    // even count: upper median
    assert_eq!(median_length(&[40, 10, 30, 20]), 30);
    assert_eq!(median_length(&[7]), 7);
}
