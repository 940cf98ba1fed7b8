use speeko::config::{
    default_debounce_ms, default_max_frames, default_model_dir,
    default_post_recognition_cooldown_ms, default_recognizer_poll_ms, default_resolution,
    default_true, ClassifierConfig, DisplayConfig, PathsConfig,
};

#[test]
fn default_values() {
    assert!(default_true());
    assert_eq!(default_max_frames(), 100);
    assert_eq!(default_model_dir(), "data/models");
    assert_eq!(default_debounce_ms(), 300);
    assert_eq!(default_resolution(), [1280, 720]);
    assert_eq!(default_recognizer_poll_ms(), 50);
    assert_eq!(default_post_recognition_cooldown_ms(), 300);
}

#[test]
fn default_sections() {
    let c = ClassifierConfig::default();
    assert_eq!(c.max_frames, 100);
    assert_eq!(c.model_dir, "data/models");
    let d = DisplayConfig::default();
    assert!(!d.fullscreen);
    assert_eq!(d.resolution, [1280, 720]);
    assert!(!d.debug_overlay);
    let p = PathsConfig {
        templates_dir: "t".to_string(),
        recordings_dir: "r".to_string(),
        vocabulary_file: "v".to_string(),
    };
    assert_eq!(p.templates_dir, "t");
}
