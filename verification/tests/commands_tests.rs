use speeko::commands::{
    classify_prediction, is_affirmative, recording_file_name, sample_count_for,
    untrained_words, EvaluationTally, PredictionOutcome,
};

#[test]
fn affirmative_answers() {
    assert!(is_affirmative("y"));
    assert!(is_affirmative("Y\n"));
    assert!(is_affirmative("  y \r\n"));
    assert!(!is_affirmative("yes"));
    assert!(!is_affirmative(""));
    assert!(!is_affirmative("n"));
    assert!(!is_affirmative("\n"));
}

#[test]
fn untrained_vocabulary_words() {
    let vocab = vec!["start".to_string(), "stop".to_string(), "jump".to_string()];
    let trained = vec!["stop".to_string(), "run".to_string()];
    assert_eq!(untrained_words(&vocab, &trained), vec!["start", "jump"]);
    assert!(untrained_words(&vocab, &vocab).is_empty());
    assert_eq!(untrained_words(&vocab, &[]), vocab);
}

#[test]
fn count_lookup() {
    let counts = vec![("go".to_string(), 2), ("stop".to_string(), 5)];
    assert_eq!(sample_count_for(&counts, "stop"), 5);
    assert_eq!(sample_count_for(&counts, "go"), 2);
    assert_eq!(sample_count_for(&counts, "jump"), 0);
}

#[test]
fn recording_names() {
    assert_eq!(recording_file_name(0), "sample_000.wav");
    assert_eq!(recording_file_name(12), "sample_012.wav");
    assert_eq!(recording_file_name(5000), "sample_5000.wav");
}

#[test]
fn evaluation_tally() {
    assert_eq!(classify_prediction("go", Some("go")), PredictionOutcome::Correct);
    assert_eq!(classify_prediction("go", Some("stop")), PredictionOutcome::Wrong);
    assert_eq!(classify_prediction("go", None), PredictionOutcome::Rejected);

    let mut tally = EvaluationTally::new();
    tally.record(PredictionOutcome::Correct);
    tally.record(PredictionOutcome::Wrong);
    tally.record(PredictionOutcome::Rejected);
    tally.record_no_speech();
    tally.record(PredictionOutcome::Correct);
    assert_eq!(tally, EvaluationTally { correct: 2, total: 5, rejected: 1 });
}
