use speeko::capture::{choose_config, clamped_rate, config_score, ConfigRange};

fn range(is_f32: bool, channels: u16, min_rate: u32, max_rate: u32) -> ConfigRange {
    ConfigRange { is_f32, channels, min_rate, max_rate }
}

#[test]
fn rate_is_clamped_into_range() {
    assert_eq!(clamped_rate(&range(true, 1, 8000, 48000), 16000), 16000);
    assert_eq!(clamped_rate(&range(true, 1, 44100, 48000), 16000), 44100);
    assert_eq!(clamped_rate(&range(true, 1, 8000, 11025), 16000), 11025);
}

#[test]
fn score_formula() {
    assert_eq!(config_score(&range(true, 1, 8000, 48000), 16000), 1700);
    // i16 stereo at 44100: 0 + 0 + 0 - 281 - 50
    assert_eq!(config_score(&range(false, 2, 44100, 44100), 16000), -331);
}

#[test]
fn best_range_wins_first_among_equals() {
    let ranges = vec![
        range(false, 2, 44100, 48000),
        range(true, 1, 8000, 48000),
        range(true, 1, 16000, 16000),
    ];
    assert_eq!(choose_config(&ranges, 16000), Some((1, 16000)));
    assert_eq!(choose_config(&[], 16000), None);
    let only = vec![range(false, 2, 44100, 48000)];
    assert_eq!(choose_config(&only, 16000), Some((0, 44100)));
}
