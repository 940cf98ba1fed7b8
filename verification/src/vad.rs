//! Sample-index arithmetic of the energy-based voice activity detector:
//! from the per-frame speech decisions to the sample region that holds the
//! utterance, and the capping of an over-long utterance around its peak.
use vstd::prelude::*;

use crate::framing::{frame_count, lemma_frame_fits};

verus! {

/// VAD result indicating the active speech region.
#[derive(Debug, Clone, Copy)]
pub struct VadRegion {
    /// Start sample index (inclusive).
    pub start: usize,
    /// End sample index (exclusive).
    pub end: usize,
}

impl VadRegion {
    /// The number of samples in the region.
    pub fn duration_samples(&self) -> (d: usize)
        requires
            self.start <= self.end,
        ensures
            d == self.end - self.start,
    {
        self.end - self.start
    }
}

pub open spec fn min(a: int, b: int) -> int {
    if a <= b {
        a
    } else {
        b
    }
}

pub open spec fn max(a: int, b: int) -> int {
    if a >= b {
        a
    } else {
        b
    }
}

/// `f` is the first frame marked as speech.
pub open spec fn is_first_active(active: Seq<bool>, f: int) -> bool {
    &&& 0 <= f < active.len()
    &&& active[f]
    &&& forall|k: int| 0 <= k < f ==> !#[trigger] active[k]
}

/// `l` is the last frame marked as speech.
pub open spec fn is_last_active(active: Seq<bool>, l: int) -> bool {
    &&& 0 <= l < active.len()
    &&& active[l]
    &&& forall|k: int| l < k < active.len() ==> !#[trigger] active[k]
}

/// The sample span of speech that starts in frame `first` and ends in frame
/// `last`: the end is extended by `hangover_frames` frames (without going
/// past the last of `num_frames` frames), then both ends are widened by
/// `padding_samples` samples, within the buffer of `num_samples` samples.
pub open spec fn speech_span(
    first: int,
    last: int,
    num_frames: int,
    num_samples: int,
    frame_length: int,
    frame_step: int,
    hangover_frames: int,
    padding_samples: int,
) -> (int, int) {
    let last_with_hangover = min(last + hangover_frames, num_frames - 1);
    let start_sample = first * frame_step;
    let end_sample = min(last_with_hangover * frame_step + frame_length, num_samples);
    (max(start_sample - padding_samples, 0), min(end_sample + padding_samples, num_samples))
}

/// The speech region of a buffer of `num_samples` samples whose frames
/// (`frame_length` samples, `frame_step` apart) are marked as speech or not
/// in `active`: from the first to the last speech frame, extended by the
/// hangover and padded on both sides. `None` when no frame is speech.
pub fn speech_region(
    active: &[bool],
    num_samples: usize,
    frame_length: usize,
    frame_step: usize,
    hangover_frames: usize,
    padding_samples: usize,
) -> (region: Option<VadRegion>)
    requires
        frame_step > 0,
        active@.len() == frame_count(num_samples as nat, frame_length as nat, frame_step as nat),
    ensures
        region is None <==> forall|k: int| 0 <= k < active@.len() ==> !#[trigger] active@[k],
        region matches Some(r) ==> {
            &&& forall|f: int, l: int|
                is_first_active(active@, f) && is_last_active(active@, l) ==> (
                r.start as int,
                r.end as int,
            ) == speech_span(
                f,
                l,
                active@.len() as int,
                num_samples as int,
                frame_length as int,
                frame_step as int,
                hangover_frames as int,
                padding_samples as int,
            )
            &&& r.start <= r.end <= num_samples
            &&& forall|k: int|
                0 <= k < active@.len() && #[trigger] active@[k] ==> r.start <= k * frame_step
                    && k * frame_step + frame_length <= r.end
            &&& forall|f: int, l: int|
                is_first_active(active@, f) && is_last_active(active@, l) ==> {
                    &&& r.start as int == vstd::math::max(f * frame_step - padding_samples, 0)
                    &&& r.end as int == vstd::math::min(
                        vstd::math::min(
                            vstd::math::min(l + hangover_frames, active@.len() - 1) * frame_step
                                + frame_length,
                            num_samples as int,
                        ) + padding_samples,
                        num_samples as int,
                    )
                }
        },
{
    let n = active.len();
    let mut f: usize = 0;
    while f < n && !active[f]
        invariant
            f <= n == active@.len(),
            forall|k: int| 0 <= k < f ==> !#[trigger] active@[k],
        decreases n - f,
    {
        f = f + 1;
    }
    if f == n {
        return None;
    }
    let mut l: usize = n - 1;
    while !active[l]
        invariant
            f <= l < n == active@.len(),
            active@[f as int],
            forall|k: int| l < k < n ==> !#[trigger] active@[k],
        decreases l,
    {
        l = l - 1;
    }
    proof {
        lemma_frame_fits(num_samples as nat, frame_length as nat, frame_step as nat, f as nat);
        lemma_frame_fits(num_samples as nat, frame_length as nat, frame_step as nat, (n - 1) as nat);
    }
    let last_with_hangover = if hangover_frames >= n - 1 - l {
        n - 1
    } else {
        l + hangover_frames
    };
    proof {
        lemma_frame_fits(
            num_samples as nat,
            frame_length as nat,
            frame_step as nat,
            last_with_hangover as nat,
        );
        assert(f * frame_step <= last_with_hangover * frame_step) by (nonlinear_arith)
            requires
                f <= last_with_hangover,
        ;
    }
    let start_sample = f * frame_step;
    let end_sample = last_with_hangover * frame_step + frame_length;
    let start = if start_sample >= padding_samples {
        start_sample - padding_samples
    } else {
        0
    };
    let end = if padding_samples >= num_samples - end_sample {
        num_samples
    } else {
        end_sample + padding_samples
    };
    let region = VadRegion { start, end };
    proof {
        assert forall|ff: int, ll: int|
            is_first_active(active@, ff) && is_last_active(active@, ll) implies (
            region.start as int,
            region.end as int,
        ) == speech_span(
            ff,
            ll,
            active@.len() as int,
            num_samples as int,
            frame_length as int,
            frame_step as int,
            hangover_frames as int,
            padding_samples as int,
        ) && region.start as int == vstd::math::max(ff * frame_step - padding_samples, 0)
            && region.end as int == vstd::math::min(
            vstd::math::min(
                vstd::math::min(ll + hangover_frames, active@.len() - 1) * frame_step
                    + frame_length,
                num_samples as int,
            ) + padding_samples,
            num_samples as int,
        ) by {
            if ff < f {
                assert(!active@[ff]);
            }
            if f < ff {
                assert(!active@[f as int]);
            }
            if ll < l {
                assert(!active@[l as int]);
            }
            if l < ll {
                assert(!active@[ll]);
            }
        }
        assert forall|k: int|
            0 <= k < active@.len() && #[trigger] active@[k] implies region.start <= k * frame_step
            && k * frame_step + frame_length <= region.end by {
            assert(f <= k <= l);
            assert(f * frame_step <= k * frame_step) by (nonlinear_arith)
                requires
                    f <= k,
            ;
            assert(k * frame_step <= l * frame_step) by (nonlinear_arith)
                requires
                    k <= l,
            ;
            assert(l * frame_step <= last_with_hangover * frame_step) by (nonlinear_arith)
                requires
                    l <= last_with_hangover,
            ;
        }
    }
    Some(region)
}

/// The span of speech runs from the start of the first speech frame, less
/// the padding (not before sample 0), to the end of the frame `hangover`
/// frames after the last speech frame (or of the buffer's last frame, if
/// that comes first), cut at the buffer's end, plus the padding (not past
/// the buffer's end).
pub proof fn lemma_speech_span_bounds(
    first: int,
    last: int,
    num_frames: int,
    num_samples: int,
    frame_length: int,
    frame_step: int,
    hangover_frames: int,
    padding_samples: int,
)
    ensures
        speech_span(
            first,
            last,
            num_frames,
            num_samples,
            frame_length,
            frame_step,
            hangover_frames,
            padding_samples,
        ).0 == vstd::math::max(first * frame_step - padding_samples, 0),
        speech_span(
            first,
            last,
            num_frames,
            num_samples,
            frame_length,
            frame_step,
            hangover_frames,
            padding_samples,
        ).1 == vstd::math::min(
            vstd::math::min(
                vstd::math::min(last + hangover_frames, num_frames - 1) * frame_step
                    + frame_length,
                num_samples,
            ) + padding_samples,
            num_samples,
        ),
{
}

/// The hangover lengthens the region: with more hangover frames the
/// region of the same speech frames ends no earlier, and while the
/// extended frame stays inside the buffer and its end plus padding fits,
/// each hangover frame moves the end by one frame step.
pub proof fn lemma_speech_span_hangover_extends(
    first: int,
    last: int,
    num_frames: int,
    num_samples: int,
    frame_length: int,
    frame_step: int,
    h1: int,
    h2: int,
    padding_samples: int,
)
    requires
        frame_step >= 0,
        padding_samples >= 0,
        h1 <= h2,
    ensures
        speech_span(first, last, num_frames, num_samples, frame_length, frame_step, h1, padding_samples).1
            <= speech_span(first, last, num_frames, num_samples, frame_length, frame_step, h2, padding_samples).1,
        last + h2 <= num_frames - 1 && (last + h2) * frame_step + frame_length + padding_samples
            <= num_samples ==> speech_span(
            first,
            last,
            num_frames,
            num_samples,
            frame_length,
            frame_step,
            h2,
            padding_samples,
        ).1 == (last + h2) * frame_step + frame_length + padding_samples,
{
    let a = vstd::math::min(last + h1, num_frames - 1);
    let b = vstd::math::min(last + h2, num_frames - 1);
    assert(a <= b);
    assert(a * frame_step <= b * frame_step) by (nonlinear_arith)
        requires
            a <= b,
            frame_step >= 0,
    ;
}

/// The frames in which to look for the energy peak of `region`: from the
/// frame holding the region's start to the frame holding its end, within
/// the `num_frames` frames of the buffer.
pub fn peak_search_frames(region: VadRegion, frame_step: usize, num_frames: usize) -> (range: (
    usize,
    usize,
))
    requires
        frame_step > 0,
    ensures
        range.0 == region.start / frame_step,
        range.1 == min((region.end / frame_step) as int, num_frames as int),
{
    let first = region.start / frame_step;
    let last = region.end / frame_step;
    (first, if last <= num_frames {
        last
    } else {
        num_frames
    })
}

/// The window of `max_samples` samples centred on `peak_sample` (shifted
/// right so it does not start before sample 0, cut at the end of the buffer
/// of `num_samples` samples), intersected with the region
/// `[region_start, region_end)`.
pub open spec fn capped_span(
    region_start: int,
    region_end: int,
    peak_sample: int,
    max_samples: int,
    num_samples: int,
) -> (int, int) {
    let half = max_samples / 2;
    let cap_start = if peak_sample > half {
        peak_sample - half
    } else {
        0
    };
    let cap_end = min(cap_start + max_samples, num_samples);
    (max(cap_start, region_start), min(cap_end, region_end))
}

/// Caps an over-long utterance to at most `max_samples` samples, centred on
/// the peak-energy frame `peak_frame` and kept within the detected region.
pub fn cap_region(
    region: VadRegion,
    peak_frame: usize,
    frame_step: usize,
    max_samples: usize,
    num_samples: usize,
) -> (capped: VadRegion)
    requires
        peak_frame * frame_step <= usize::MAX,
    ensures
        (capped.start as int, capped.end as int) == capped_span(
            region.start as int,
            region.end as int,
            peak_frame * frame_step,
            max_samples as int,
            num_samples as int,
        ),
        region.start <= capped.start,
        capped.end <= region.end,
        capped.start <= capped.end ==> capped.end - capped.start <= max_samples,
{
    let peak_sample = peak_frame * frame_step;
    let half = max_samples / 2;
    let cap_start = if peak_sample > half {
        peak_sample - half
    } else {
        0
    };
    let cap_end = if cap_start <= num_samples && max_samples <= num_samples - cap_start {
        cap_start + max_samples
    } else {
        num_samples
    };
    let start = if cap_start >= region.start {
        cap_start
    } else {
        region.start
    };
    let end = if cap_end <= region.end {
        cap_end
    } else {
        region.end
    };
    VadRegion { start, end }
}

} // verus!
