use speeko::error::SpeekError;

#[test]
fn error_messages() {
    assert_eq!(SpeekError::NoAudioDevice.message(), "No audio input device found.");
    assert_eq!(SpeekError::NoTemplates.message(), "No templates found.");
    assert_eq!(
        SpeekError::RecordingTooShort { duration_ms: 120, min_ms: 300 }.message(),
        "Recording too short (120ms). Minimum is 300ms."
    );
    assert_eq!(
        SpeekError::WordNotInVocabulary("jump".to_string()).message(),
        "'jump' is not in vocabulary."
    );
    assert_eq!(
        SpeekError::NoTemplatesForWord("go".to_string()).message(),
        "No templates found for word 'go'."
    );
    assert_eq!(
        SpeekError::AudioCapture("device busy".to_string()).message(),
        "Audio capture failed: device busy"
    );
    assert_eq!(SpeekError::Cancelled.message(), "Operation cancelled.");
    assert_eq!(
        SpeekError::NoSpeechDetected.message(),
        "No speech detected. Please speak louder or check mic."
    );
    assert_eq!(SpeekError::AudioClipped.message(), "Audio appears clipped.");
    assert_eq!(SpeekError::Config("bad".to_string()).message(), "Configuration error: bad");
    assert_eq!(SpeekError::Vocabulary("x".to_string()).message(), "Vocabulary error: x");
    assert_eq!(SpeekError::Storage("y".to_string()).message(), "Storage error: y");
    assert_eq!(
        SpeekError::FeatureExtraction("z".to_string()).message(),
        "Feature extraction error: z"
    );
}
