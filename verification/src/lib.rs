//! Verified core of an offline isolated-word speech recognizer: vocabulary
//! handling, audio framing, the speech-region arithmetic of the voice
//! activity detector, capture-configuration selection, template storage
//! naming and ordering, classifier input layout, feature augmentation and
//! the decisions behind the command-line commands.

pub mod text;
pub mod vocabulary;
pub mod framing;
pub mod vad;
pub mod capture;
pub mod error;
pub mod config;
pub mod store;
pub mod averaging;
pub mod model;
pub mod augment;
pub mod commands;

pub use vocabulary::{is_in_vocabulary, parse_vocabulary, VocabMap};
pub use framing::split_frames;
