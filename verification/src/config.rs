//! Configuration values that hold no floating-point settings: storage
//! paths, classifier input length, display settings, and the defaults that
//! a configuration file may leave out.
use vstd::prelude::*;
use vstd::string::*;

verus! {

/// Where templates, recordings and the vocabulary file are kept.
#[derive(Debug, Clone)]
pub struct PathsConfig {
    /// Directory for stored templates.
    pub templates_dir: String,
    /// Directory for raw WAV recordings.
    pub recordings_dir: String,
    /// Path to vocabulary file.
    pub vocabulary_file: String,
}

/// Default for boolean switches that are on unless configured off.
pub fn default_true() -> (b: bool)
    ensures
        b,
{
    true
}

/// Default number of MFCC frames of a classifier input.
pub fn default_max_frames() -> (n: usize)
    ensures
        n == 100,
{
    100
}

/// Default directory of the classifier model files.
pub fn default_model_dir() -> (dir: String)
    ensures
        dir@ == "data/models"@,
{
    String::from_str("data/models")
}

/// Default minimum time between two accepted commands, in milliseconds.
pub fn default_debounce_ms() -> (ms: u32)
    ensures
        ms == 300,
{
    300
}

/// Default window resolution (width, height).
pub fn default_resolution() -> (r: [u32; 2])
    ensures
        r@ == seq![1280u32, 720u32],
{
    let r = [1280u32, 720u32];
    assert(r@ =~= seq![1280u32, 720u32]);
    r
}

/// Default interval between recognizer polls of the ring buffer, in
/// milliseconds.
pub fn default_recognizer_poll_ms() -> (ms: u64)
    ensures
        ms == 50,
{
    50
}

/// Default pause after a recognition before listening again, in
/// milliseconds.
pub fn default_post_recognition_cooldown_ms() -> (ms: u64)
    ensures
        ms == 300,
{
    300
}

/// Classifier (CNN) settings.
#[derive(Debug, Clone)]
pub struct ClassifierConfig {
    /// Fixed number of MFCC frames for CNN input (pad/truncate to this).
    pub max_frames: usize,
    /// Directory for CNN model files.
    pub model_dir: String,
}

impl Default for ClassifierConfig {
    fn default() -> (c: Self)
        ensures
            c.max_frames == 100,
            c.model_dir@ == "data/models"@,
    {
        ClassifierConfig { max_frames: default_max_frames(), model_dir: default_model_dir() }
    }
}

/// Display settings.
#[derive(Debug, Clone)]
pub struct DisplayConfig {
    pub fullscreen: bool,
    pub resolution: [u32; 2],
    pub debug_overlay: bool,
}

impl Default for DisplayConfig {
    fn default() -> (c: Self)
        ensures
            !c.fullscreen,
            c.resolution@ == seq![1280u32, 720u32],
            !c.debug_overlay,
    {
        DisplayConfig { fullscreen: false, resolution: default_resolution(), debug_overlay: false }
    }
}

} // verus!
