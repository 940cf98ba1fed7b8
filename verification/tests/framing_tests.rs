use speeko::framing::num_frames;
use speeko::split_frames;

#[test]
fn test_split_frames_count() {
    let samples = vec![0.0f32; 16000]; // 1 second at 16kHz
    let frames = split_frames(&samples, 400, 160);
    // (16000 - 400) / 160 + 1 = 98
    assert_eq!(frames.len(), 98);
    assert_eq!(frames[0].len(), 400);
}

#[test]
fn test_split_frames_too_short() {
    let samples = vec![0.0f32; 100];
    let frames = split_frames(&samples, 400, 160);
    assert!(frames.is_empty());
}

#[test]
fn split_frames_contents_follow_the_step() {
    let samples: Vec<u32> = (0..10).collect();
    let frames = split_frames(&samples, 4, 3);
    assert_eq!(frames, vec![vec![0, 1, 2, 3], vec![3, 4, 5, 6], vec![6, 7, 8, 9]]);
}

#[test]
fn split_frames_exact_fit_and_drop_partial() {
    let samples: Vec<u8> = vec![1, 2, 3, 4];
    assert_eq!(split_frames(&samples, 4, 2), vec![vec![1, 2, 3, 4]]);
    let samples: Vec<u8> = vec![1, 2, 3, 4, 5];
    assert_eq!(split_frames(&samples, 4, 2), vec![vec![1, 2, 3, 4]]);
}

#[test]
fn num_frames_formula() {
    assert_eq!(num_frames(16000, 400, 160), 98);
    assert_eq!(num_frames(399, 400, 160), 0);
    assert_eq!(num_frames(400, 400, 160), 1);
    assert_eq!(num_frames(560, 400, 160), 2);
}
