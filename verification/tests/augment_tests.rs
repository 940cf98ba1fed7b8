use speeko::augment::{
    augment_op_from_index, circular_shift, frequency_mask, mask_bands, random_augment_ops,
    random_mask_bands, shift_by_draw, time_shift, AugmentOp,
};

fn make_mfcc(frames: usize, coeffs: usize) -> Vec<Vec<f32>> {
    (0..frames)
        .map(|f| (0..coeffs).map(|c| (f * coeffs + c) as f32).collect())
        .collect()
}

#[test]
fn test_frequency_mask_zeros_bands() {
    let mut mfcc = make_mfcc(10, 13);
    frequency_mask(&mut mfcc, 0.0);
    // At least one coefficient column should be all zeros.
    let num_coeffs = 13;
    let has_zeroed_band = (0..num_coeffs).any(|c| mfcc.iter().all(|frame| frame[c] == 0.0));
    assert!(has_zeroed_band, "frequency mask should zero at least one band");
}

#[test]
fn frequency_mask_touches_at_most_three_bands() {
    for _ in 0..20 {
        let mut mfcc = make_mfcc(6, 13);
        frequency_mask(&mut mfcc, -1.0);
        let masked: Vec<usize> =
            (0..13).filter(|&c| mfcc.iter().all(|frame| frame[c] == -1.0)).collect();
        assert!(!masked.is_empty() && masked.len() <= 3);
        let unmasked = make_mfcc(6, 13);
        for c in 0..13 {
            if !masked.contains(&c) {
                for f in 0..6 {
                    assert_eq!(mfcc[f][c], unmasked[f][c]);
                }
            }
        }
    }
}

#[test]
fn frequency_mask_leaves_empty_input() {
    let mut empty: Vec<Vec<f32>> = vec![];
    frequency_mask(&mut empty, 0.0);
    assert!(empty.is_empty());
    let mut no_coeffs: Vec<Vec<f32>> = vec![vec![], vec![]];
    frequency_mask(&mut no_coeffs, 0.0);
    assert_eq!(no_coeffs, vec![Vec::<f32>::new(), Vec::new()]);
}

#[test]
fn frequency_mask_single_coefficient() {
    let mut mfcc = vec![vec![5], vec![6]];
    frequency_mask(&mut mfcc, 0);
    assert_eq!(mfcc, vec![vec![0], vec![0]]);
}

#[test]
fn mask_bands_exact() {
    let mut mfcc = vec![vec![1, 2, 3], vec![4, 5, 6]];
    mask_bands(&mut mfcc, &[2, 0, 2], 9);
    assert_eq!(mfcc, vec![vec![9, 2, 9], vec![9, 5, 9]]);
}

#[test]
fn circular_shift_positive_and_negative() {
    let v = vec![0, 1, 2, 3, 4];
    assert_eq!(circular_shift(v.clone(), 2), vec![3, 4, 0, 1, 2]);
    assert_eq!(circular_shift(v.clone(), -2), vec![2, 3, 4, 0, 1]);
    assert_eq!(circular_shift(v.clone(), 7), vec![3, 4, 0, 1, 2]);
    assert_eq!(circular_shift(v.clone(), -5), v);
    assert_eq!(circular_shift(Vec::<u8>::new(), 3), Vec::<u8>::new());
}

#[test]
fn circular_shift_back_and_forth() {
    let v: Vec<u32> = (0..9).collect();
    assert_eq!(circular_shift(circular_shift(v.clone(), 4), -4), v);
}

#[test]
fn time_shift_is_a_small_rotation() {
    let frames: Vec<u32> = (0..40).collect();
    for _ in 0..20 {
        let mut v = frames.clone();
        time_shift(&mut v);
        // max shift for 40 frames is min(5, 40 / 4) = 5
        let found = (-5i32..=5).any(|s| circular_shift(frames.clone(), s) == v);
        assert!(found);
    }
}

#[test]
fn time_shift_short_sequences_unchanged() {
    let mut v = vec![1, 2];
    time_shift(&mut v);
    assert_eq!(v, vec![1, 2]);
    // three frames: max shift is 3 / 4 = 0
    let mut w = vec![1, 2, 3];
    time_shift(&mut w);
    assert_eq!(w, vec![1, 2, 3]);
}

#[test]
fn augment_ops_count_and_kinds() {
    for _ in 0..20 {
        let ops = random_augment_ops();
        assert!(!ops.is_empty() && ops.len() <= 3);
    }
    assert_eq!(augment_op_from_index(0), AugmentOp::TimeStretch);
    assert_eq!(augment_op_from_index(1), AugmentOp::GaussianNoise);
    assert_eq!(augment_op_from_index(2), AugmentOp::TimeShift);
    assert_eq!(augment_op_from_index(3), AugmentOp::FrequencyMask);
}

#[test]
fn augment_ops_vary_between_calls() {
    let mut lengths = std::collections::HashSet::new();
    let mut kinds = std::collections::HashSet::new();
    for _ in 0..200 {
        let ops = random_augment_ops();
        lengths.insert(ops.len());
        for op in ops {
            kinds.insert(format!("{:?}", op));
        }
    }
    assert!(lengths.len() > 1, "the number of steps should vary");
    assert!(kinds.len() > 1, "the kinds of steps should vary");
}

#[test]
fn shift_by_draw_follows_the_draw() {
    let frames: Vec<u32> = (0..40).collect();
    // 40 frames: max shift 5; draw 7 shifts by +2, draw 0 by -5, draw 5 by 0
    let mut v = frames.clone();
    shift_by_draw(&mut v, 7);
    assert_eq!(v, circular_shift(frames.clone(), 2));
    let mut v = frames.clone();
    shift_by_draw(&mut v, 0);
    assert_eq!(v, circular_shift(frames.clone(), -5));
    let mut v = frames.clone();
    shift_by_draw(&mut v, 5);
    assert_eq!(v, frames);
    let mut short = vec![1, 2];
    shift_by_draw(&mut short, 0);
    assert_eq!(short, vec![1, 2]);
}

#[test]
fn mask_band_draws_stay_in_range() {
    for _ in 0..50 {
        let bands = random_mask_bands(13);
        assert!(!bands.is_empty() && bands.len() <= 3);
        assert!(bands.iter().all(|&b| b < 13));
        let one = random_mask_bands(1);
        assert_eq!(one, vec![0]);
    }
}
