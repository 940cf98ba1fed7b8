use speeko::store::{
    count_template_files, has_extension, sample_order, template_file_name, word_order,
    TemplateStore,
};

#[test]
fn test_template_counts() {
    let words = vec!["hello".to_string()];
    let names: Vec<String> = (0..3).map(template_file_name).collect();
    let store = TemplateStore::new("templates".to_string());
    let counts = store.template_counts(&words, &[names]);
    assert_eq!(counts.len(), 1);
    assert_eq!(counts[0], ("hello".to_string(), 3));
}

#[test]
fn template_counts_sorted_and_filtered() {
    let words = vec!["stop".to_string(), "go".to_string(), "start".to_string()];
    let entries = vec![
        vec!["template_000.bin".to_string(), "notes.txt".to_string()],
        vec![],
        vec![
            "template_000.bin".to_string(),
            "template_001.bin".to_string(),
            "template_002.BIN".to_string(),
        ],
    ];
    let store = TemplateStore::new("templates".to_string());
    let counts = store.template_counts(&words, &entries);
    assert_eq!(
        counts,
        vec![
            ("go".to_string(), 0),
            ("start".to_string(), 2),
            ("stop".to_string(), 1)
        ]
    );
}

#[test]
fn template_file_names_are_zero_padded() {
    assert_eq!(template_file_name(0), "template_000.bin");
    assert_eq!(template_file_name(7), "template_007.bin");
    assert_eq!(template_file_name(42), "template_042.bin");
    assert_eq!(template_file_name(1234), "template_1234.bin");
}

#[test]
fn extensions_follow_path_rules() {
    assert!(has_extension("template_000.bin", "bin"));
    assert!(has_extension("a.b.wav", "wav"));
    assert!(!has_extension("template_000.bin", "wav"));
    assert!(!has_extension(".bin", "bin"));
    assert!(!has_extension("bin", "bin"));
    assert!(has_extension("file.", ""));
    assert!(!has_extension("..", ""));
}

#[test]
fn counting_template_files() {
    let entries = vec![
        "template_000.bin".to_string(),
        ".bin".to_string(),
        "x.bin.tmp".to_string(),
        "template_001.bin".to_string(),
    ];
    assert_eq!(count_template_files(&entries), 2);
}

#[test]
fn next_index_after_largest() {
    let store = TemplateStore::new("templates".to_string());
    assert_eq!(store.base_dir(), "templates");
    assert_eq!(store.next_sample_index(&[]), 0);
    assert_eq!(store.next_sample_index(&[0, 1, 2]), 3);
    assert_eq!(store.next_sample_index(&[4, 9, 2]), 10);
}

#[test]
fn sample_order_is_stable() {
    assert_eq!(sample_order(&[2, 0, 1]), vec![1, 2, 0]);
    assert_eq!(sample_order(&[5, 3, 5, 3]), vec![1, 3, 0, 2]);
    assert_eq!(sample_order(&[]), Vec::<usize>::new());
}

#[test]
fn template_counts_keep_listing_order_for_equal_names() {
    let store = TemplateStore::new("templates".to_string());
    let words = vec!["b".to_string(), "a".to_string(), "b".to_string()];
    let entries = vec![
        vec!["x.bin".to_string()],
        vec!["x.bin".to_string(), "y.bin".to_string()],
        vec!["x.bin".to_string(), "y.bin".to_string(), "z.bin".to_string()],
    ];
    assert_eq!(
        store.template_counts(&words, &entries),
        vec![("a".to_string(), 2), ("b".to_string(), 1), ("b".to_string(), 3)]
    );
}

#[test]
fn word_order_is_stable() {
    let words = vec!["stop".to_string(), "go".to_string(), "stop".to_string(), "back".to_string()];
    assert_eq!(word_order(&words), vec![3, 1, 0, 2]);
}
