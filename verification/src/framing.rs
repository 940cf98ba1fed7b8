//! Splitting a sample buffer into overlapping analysis frames.
use vstd::prelude::*;

verus! {

/// The number of whole frames of `frame_length` samples, `frame_step`
/// samples apart, that fit in `num_samples` samples (the last partial frame
/// is discarded).
pub open spec fn frame_count(num_samples: nat, frame_length: nat, frame_step: nat) -> nat {
    if num_samples < frame_length {
        0
    } else {
        ((num_samples - frame_length) as nat / frame_step + 1) as nat
    }
}

/// Every frame counted by `frame_count` lies within the buffer.
pub proof fn lemma_frame_fits(num_samples: nat, frame_length: nat, frame_step: nat, k: nat)
    requires
        frame_step > 0,
        k < frame_count(num_samples, frame_length, frame_step),
    ensures
        k * frame_step + frame_length <= num_samples,
{
    let q = (num_samples - frame_length) as nat / frame_step;
    assert(k <= q);
    assert(k * frame_step <= q * frame_step) by (nonlinear_arith)
        requires
            k <= q,
    ;
    assert(q * frame_step <= (num_samples - frame_length) as nat) by (nonlinear_arith)
        requires
            q == (num_samples - frame_length) as nat / frame_step,
            frame_step > 0,
    ;
}

/// One more frame than `frame_count` counts would not fit.
pub proof fn lemma_frame_count_maximal(num_samples: nat, frame_length: nat, frame_step: nat)
    requires
        frame_step > 0,
    ensures
        frame_count(num_samples, frame_length, frame_step) * frame_step + frame_length
            > num_samples,
{
    if num_samples >= frame_length {
        let r = (num_samples - frame_length) as nat;
        let q = r / frame_step;
        assert((q + 1) * frame_step > r) by (nonlinear_arith)
            requires
                q == r / frame_step,
                frame_step > 0,
        ;
    }
}

/// The number of whole frames in a buffer of `num_samples` samples.
pub fn num_frames(num_samples: usize, frame_length: usize, frame_step: usize) -> (n: usize)
    requires
        num_samples >= frame_length ==> frame_step > 0,
        num_samples < usize::MAX,
    ensures
        n == frame_count(num_samples as nat, frame_length as nat, frame_step as nat),
{
    if num_samples < frame_length {
        0
    } else {
        (num_samples - frame_length) / frame_step + 1
    }
}

/// Split audio into overlapping frames.
///
/// Returns a Vec of frames, each of length `frame_length`.
/// Frames are separated by `frame_step` samples.
/// The last partial frame is discarded.
pub fn split_frames<T: Copy>(samples: &[T], frame_length: usize, frame_step: usize) -> (frames:
    Vec<Vec<T>>)
    requires
        samples@.len() >= frame_length ==> frame_step > 0,
        samples@.len() < usize::MAX,
    ensures
        frames@.len() == frame_count(samples@.len(), frame_length as nat, frame_step as nat),
        forall|i: int|
            0 <= i < frames@.len() ==> (#[trigger] frames@[i])@ == samples@.subrange(
                i * frame_step,
                i * frame_step + frame_length,
            ),
{
    let count = num_frames(samples.len(), frame_length, frame_step);
    let mut frames: Vec<Vec<T>> = Vec::new();
    let mut i: usize = 0;
    let mut start: usize = 0;
    while i < count
        invariant
            count == frame_count(samples@.len(), frame_length as nat, frame_step as nat),
            count > 0 ==> frame_step > 0,
            samples@.len() < usize::MAX,
            i <= count,
            frames@.len() == i,
            i < count ==> start == i * frame_step,
            forall|k: int|
                0 <= k < i ==> (#[trigger] frames@[k])@ == samples@.subrange(
                    k * frame_step,
                    k * frame_step + frame_length,
                ),
        decreases count - i,
    {
        proof {
            lemma_frame_fits(samples@.len(), frame_length as nat, frame_step as nat, i as nat);
            assert(i * frame_step + frame_length <= samples@.len());
        }
        let end = start + frame_length;
        let mut frame: Vec<T> = Vec::new();
        let mut j: usize = start;
        while j < end
            invariant
                start <= j <= end,
                end <= samples@.len(),
                frame@ == samples@.subrange(start as int, j as int),
            decreases end - j,
        {
            frame.push(samples[j]);
            assert(frame@ =~= samples@.subrange(start as int, j + 1));
            j = j + 1;
        }
        frames.push(frame);
        if i + 1 < count {
            proof {
                lemma_frame_fits(
                    samples@.len(),
                    frame_length as nat,
                    frame_step as nat,
                    (i + 1) as nat,
                );
                assert((i + 1) * frame_step == i * frame_step + frame_step) by (nonlinear_arith);
                assert((i + 1) * frame_step + frame_length <= samples@.len());
            }
            start = start + frame_step;
        }
        proof {
            assert((i + 1) * frame_step == i * frame_step + frame_step) by (nonlinear_arith);
        }
        i = i + 1;
    }
    frames
}

} // verus!
