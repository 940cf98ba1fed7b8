use speeko::model::{batch_ranges, one_hot_encode, pad_or_truncate};

#[test]
fn test_pad_or_truncate_pad() {
    let mfcc = vec![vec![1.0f32, 2.0], vec![3.0, 4.0]]; // 2 frames, 2 coeffs
    let result = pad_or_truncate(&mfcc, 4, 0.0);
    // Channel-first: [C=2, T=4]
    // c=0: [1.0, 3.0, 0.0, 0.0]
    // c=1: [2.0, 4.0, 0.0, 0.0]
    assert_eq!(result.len(), 8);
    assert_eq!(result[0], 1.0); // c=0, t=0
    assert_eq!(result[1], 3.0); // c=0, t=1
    assert_eq!(result[2], 0.0); // c=0, t=2 (padded)
    assert_eq!(result[4], 2.0); // c=1, t=0
    assert_eq!(result[5], 4.0); // c=1, t=1
}

#[test]
fn test_pad_or_truncate_truncate() {
    let mfcc = vec![vec![1.0f32], vec![2.0], vec![3.0], vec![4.0]]; // 4 frames, 1 coeff
    let result = pad_or_truncate(&mfcc, 2, 0.0);
    assert_eq!(result.len(), 2);
    assert_eq!(result[0], 1.0);
    assert_eq!(result[1], 2.0);
}

#[test]
fn pad_or_truncate_empty_input_is_all_padding() {
    let mfcc: Vec<Vec<i32>> = vec![];
    assert_eq!(pad_or_truncate(&mfcc, 3, -1), vec![-1, -1, -1]);
}

#[test]
fn pad_or_truncate_full_layout() {
    let mfcc = vec![vec![1, 2, 3], vec![4, 5, 6]];
    assert_eq!(pad_or_truncate(&mfcc, 3, 0), vec![1, 4, 0, 2, 5, 0, 3, 6, 0]);
}

#[test]
fn one_hot_rows() {
    let out = one_hot_encode(&[2, 0, 1], 3, 1.0f32, 0.0);
    assert_eq!(out, vec![0.0, 0.0, 1.0, 1.0, 0.0, 0.0, 0.0, 1.0, 0.0]);
}

#[test]
fn one_hot_no_labels() {
    let out: Vec<u8> = one_hot_encode(&[], 4, 1, 0);
    assert!(out.is_empty());
}

#[test]
fn batch_ranges_cover_items() {
    assert_eq!(batch_ranges(10, 4), vec![(0, 4), (4, 8), (8, 10)]);
    assert_eq!(batch_ranges(8, 4), vec![(0, 4), (4, 8)]);
    assert_eq!(batch_ranges(0, 4), Vec::<(usize, usize)>::new());
    assert_eq!(batch_ranges(3, 1), vec![(0, 1), (1, 2), (2, 3)]);
}
