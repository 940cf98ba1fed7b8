//! Application-level error kinds and their user-facing messages.
use vstd::prelude::*;
use vstd::string::*;

use crate::text::{decimal, decimal_string};

verus! {

/// Application-level error types.
#[derive(Debug)]
pub enum SpeekError {
    /// No audio input device found.
    NoAudioDevice,
    /// Audio capture failed.
    AudioCapture(String),
    /// No speech detected in recording.
    NoSpeechDetected,
    /// Recording too short to be a valid utterance.
    RecordingTooShort { duration_ms: u32, min_ms: u32 },
    /// Audio appears clipped.
    AudioClipped,
    /// Word not found in vocabulary.
    WordNotInVocabulary(String),
    /// No templates found for any word.
    NoTemplates,
    /// No templates found for a specific word.
    NoTemplatesForWord(String),
    /// Configuration error.
    Config(String),
    /// Vocabulary file error.
    Vocabulary(String),
    /// Storage error.
    Storage(String),
    /// Feature extraction error.
    FeatureExtraction(String),
    /// User cancelled operation.
    Cancelled,
}

impl SpeekError {
    /// The message shown to the user for this error.
    pub open spec fn spec_message(&self) -> Seq<char> {
        match self {
            SpeekError::NoAudioDevice => "No audio input device found."@,
            SpeekError::AudioCapture(msg) => "Audio capture failed: "@ + msg@,
            SpeekError::NoSpeechDetected => "No speech detected. Please speak louder or check mic."@,
            SpeekError::RecordingTooShort { duration_ms, min_ms } => "Recording too short ("@
                + decimal(*duration_ms as nat) + "ms). Minimum is "@ + decimal(*min_ms as nat)
                + "ms."@,
            SpeekError::AudioClipped => "Audio appears clipped."@,
            SpeekError::WordNotInVocabulary(word) => "'"@ + word@ + "' is not in vocabulary."@,
            SpeekError::NoTemplates => "No templates found."@,
            SpeekError::NoTemplatesForWord(word) => "No templates found for word '"@ + word@
                + "'."@,
            SpeekError::Config(msg) => "Configuration error: "@ + msg@,
            SpeekError::Vocabulary(msg) => "Vocabulary error: "@ + msg@,
            SpeekError::Storage(msg) => "Storage error: "@ + msg@,
            SpeekError::FeatureExtraction(msg) => "Feature extraction error: "@ + msg@,
            SpeekError::Cancelled => "Operation cancelled."@,
        }
    }

    /// The message shown to the user for this error (its display text).
    pub fn message(&self) -> (m: String)
        ensures
            m@ == self.spec_message(),
    {
        match self {
            SpeekError::NoAudioDevice => String::from_str("No audio input device found."),
            SpeekError::AudioCapture(msg) => {
                let mut m = String::from_str("Audio capture failed: ");
                m.append(msg.as_str());
                m
            },
            SpeekError::NoSpeechDetected => String::from_str(
                "No speech detected. Please speak louder or check mic.",
            ),
            SpeekError::RecordingTooShort { duration_ms, min_ms } => {
                let mut m = String::from_str("Recording too short (");
                m.append(decimal_string(*duration_ms as u64).as_str());
                m.append("ms). Minimum is ");
                m.append(decimal_string(*min_ms as u64).as_str());
                m.append("ms.");
                m
            },
            SpeekError::AudioClipped => String::from_str("Audio appears clipped."),
            SpeekError::WordNotInVocabulary(word) => {
                let mut m = String::from_str("'");
                m.append(word.as_str());
                m.append("' is not in vocabulary.");
                m
            },
            SpeekError::NoTemplates => String::from_str("No templates found."),
            SpeekError::NoTemplatesForWord(word) => {
                let mut m = String::from_str("No templates found for word '");
                m.append(word.as_str());
                m.append("'.");
                m
            },
            SpeekError::Config(msg) => {
                let mut m = String::from_str("Configuration error: ");
                m.append(msg.as_str());
                m
            },
            SpeekError::Vocabulary(msg) => {
                let mut m = String::from_str("Vocabulary error: ");
                m.append(msg.as_str());
                m
            },
            SpeekError::Storage(msg) => {
                let mut m = String::from_str("Storage error: ");
                m.append(msg.as_str());
                m
            },
            SpeekError::FeatureExtraction(msg) => {
                let mut m = String::from_str("Feature extraction error: ");
                m.append(msg.as_str());
                m
            },
            SpeekError::Cancelled => String::from_str("Operation cancelled."),
        }
    }
}

} // verus!
