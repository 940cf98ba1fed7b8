use speeko::vad::{cap_region, peak_search_frames, speech_region, VadRegion};

#[test]
fn silent_buffer_has_no_region() {
    // 1600 samples, frames of 400 every 160: 8 frames
    let active = vec![false; 8];
    assert!(speech_region(&active, 1600, 400, 160, 2, 50).is_none());
}

#[test]
fn region_spans_first_to_last_active_frame() {
    let active = vec![false, false, true, false, true, false, false, false];
    let r = speech_region(&active, 1600, 400, 160, 0, 0).unwrap();
    // first = 2 -> start 320; last = 4 -> end 4*160+400 = 1040
    assert_eq!((r.start, r.end), (320, 1040));
    assert_eq!(r.duration_samples(), 720);
}

#[test]
fn region_hangover_and_padding_are_clamped() {
    let active = vec![false, false, true, false, true, false, false, false];
    let r = speech_region(&active, 1600, 400, 160, 10, 100).unwrap();
    // last with hangover = min(4 + 10, 7) = 7 -> end min(7*160+400, 1600) = 1520
    // padded: start 320 - 100 = 220, end min(1520 + 100, 1600) = 1600
    assert_eq!((r.start, r.end), (220, 1600));
    let r = speech_region(&active, 1600, 400, 160, 0, 1000).unwrap();
    assert_eq!((r.start, r.end), (0, 1600));
}

#[test]
fn capping_centres_on_the_peak() {
    let region = VadRegion { start: 1000, end: 9000 };
    let capped = cap_region(region, 30, 160, 2000, 10000);
    // peak sample 4800, half 1000 -> [3800, 5800)
    assert_eq!((capped.start, capped.end), (3800, 5800));
    assert_eq!(capped.duration_samples(), 2000);
}

#[test]
fn capping_stays_inside_region() {
    let region = VadRegion { start: 1000, end: 3000 };
    let capped = cap_region(region, 1, 160, 2000, 10000);
    // peak sample 160 <= half -> cap [0, 2000) -> intersect [1000, 2000)
    assert_eq!((capped.start, capped.end), (1000, 2000));
}

#[test]
fn peak_search_window() {
    let region = VadRegion { start: 320, end: 1600 };
    assert_eq!(peak_search_frames(region, 160, 8), (2, 8));
    assert_eq!(peak_search_frames(region, 160, 20), (2, 10));
}
