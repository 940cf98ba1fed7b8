//! Choice of the input-stream configuration for audio capture: each
//! supported configuration range of the device is scored, preferring 32-bit
//! float samples, a single channel and the requested sample rate.
use vstd::prelude::*;

verus! {

/// A range of stream configurations that an input device supports.
#[derive(Debug, Clone, Copy)]
pub struct ConfigRange {
    /// Whether the samples are 32-bit floats.
    pub is_f32: bool,
    /// Number of interleaved channels.
    pub channels: u16,
    /// Lowest supported sample rate in Hz.
    pub min_rate: u32,
    /// Highest supported sample rate in Hz.
    pub max_rate: u32,
}

/// The sample rate used for a range: the desired rate if the range holds
/// it, otherwise the nearest end of the range.
pub open spec fn spec_clamped_rate(range: ConfigRange, desired: u32) -> u32 {
    if range.min_rate <= desired && desired <= range.max_rate {
        desired
    } else if desired < range.min_rate {
        range.min_rate
    } else {
        range.max_rate
    }
}

pub open spec fn abs_diff(a: int, b: int) -> int {
    if a >= b {
        a - b
    } else {
        b - a
    }
}

/// How well a range suits the desired rate: +1000 for float samples, +500
/// for mono, +200 when the desired rate is supported, minus one point per
/// 100 Hz of rate difference and 50 points per extra channel.
pub open spec fn spec_config_score(range: ConfigRange, desired: u32) -> int {
    let rate = spec_clamped_rate(range, desired);
    (if range.is_f32 {
        1000int
    } else {
        0int
    }) + (if range.channels == 1 {
        500int
    } else {
        0int
    }) + (if rate == desired {
        200int
    } else {
        0int
    }) - abs_diff(rate as int, desired as int) / 100 - (range.channels - 1) * 50
}

/// The sample rate to request from `range`.
pub fn clamped_rate(range: &ConfigRange, desired: u32) -> (rate: u32)
    ensures
        rate == spec_clamped_rate(*range, desired),
{
    if range.min_rate <= desired && desired <= range.max_rate {
        desired
    } else if desired < range.min_rate {
        range.min_rate
    } else {
        range.max_rate
    }
}

/// The score of `range` for the desired rate.
pub fn config_score(range: &ConfigRange, desired: u32) -> (score: i64)
    ensures
        score == spec_config_score(*range, desired),
{
    let rate = clamped_rate(range, desired);
    let mut score: i64 = 0;
    if range.is_f32 {
        score = score + 1000;
    }
    if range.channels == 1 {
        score = score + 500;
    }
    if rate == desired {
        score = score + 200;
    }
    let diff: i64 = if rate >= desired {
        (rate - desired) as i64
    } else {
        (desired - rate) as i64
    };
    score = score - diff / 100;
    score = score - (range.channels as i64 - 1) * 50;
    score
}

/// Picks the best-scoring configuration range for the desired rate (the
/// first one among equals) and the sample rate to use with it. `None` only
/// when the device reports no ranges.
pub fn choose_config(ranges: &[ConfigRange], desired: u32) -> (choice: Option<(usize, u32)>)
    ensures
        choice is None <==> ranges@.len() == 0,
        choice matches Some((i, rate)) ==> {
            &&& i < ranges@.len()
            &&& rate == spec_clamped_rate(ranges@[i as int], desired)
            &&& forall|k: int|
                0 <= k < ranges@.len() ==> spec_config_score(#[trigger] ranges@[k], desired)
                    <= spec_config_score(ranges@[i as int], desired)
            &&& forall|k: int|
                0 <= k < i ==> spec_config_score(#[trigger] ranges@[k], desired)
                    < spec_config_score(ranges@[i as int], desired)
        },
{
    if ranges.len() == 0 {
        return None;
    }
    let mut best: usize = 0;
    let mut best_score = config_score(&ranges[0], desired);
    let mut i: usize = 1;
    while i < ranges.len()
        invariant
            1 <= i <= ranges@.len(),
            best < i,
            best_score == spec_config_score(ranges@[best as int], desired),
            forall|k: int|
                0 <= k < i ==> spec_config_score(#[trigger] ranges@[k], desired) <= best_score,
            forall|k: int|
                0 <= k < best ==> spec_config_score(#[trigger] ranges@[k], desired) < best_score,
        decreases ranges@.len() - i,
    {
        let score = config_score(&ranges[i], desired);
        if score > best_score {
            best = i;
            best_score = score;
        }
        i = i + 1;
    }
    Some((best, clamped_rate(&ranges[best], desired)))
}

} // verus!
