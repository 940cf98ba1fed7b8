//! Training-data augmentation on feature sequences: the random choice of
//! augmentation steps, circular time shifts and frequency-band masking.
//! The steps that resample or perturb feature values work on floating
//! point and live with the application.
use vstd::prelude::*;
use rand::Rng;
use vstd::arithmetic::div_mod::{lemma_fundamental_div_mod, lemma_fundamental_div_mod_converse};

verus! {

/// `rand::Rng::gen_range` on the thread-local generator (`rand::thread_rng`)
/// over the inclusive range `lo..=hi`. The contract claims only that the
/// drawn value lies in the range; which value comes is left to chance.
#[verifier::external_body]
fn random_in_range(lo: usize, hi: usize) -> (r: usize)
    requires
        lo <= hi,
    ensures
        lo <= r <= hi,
{
    rand::thread_rng().gen_range(lo..=hi)
}

// ---------------------------------------------------------------------------
// Choice of augmentation steps
// ---------------------------------------------------------------------------

/// One augmentation step applied to a training sample.
#[derive(Debug, Clone, Copy, PartialEq, Eq)]
pub enum AugmentOp {
    /// Resample along the time axis by a random factor.
    TimeStretch,
    /// Add Gaussian noise to every coefficient.
    GaussianNoise,
    /// Circular shift along the time axis.
    TimeShift,
    /// Set whole coefficient bands to zero.
    FrequencyMask,
}

/// The step numbered `i` in the order the steps are drawn from.
pub open spec fn op_of_index(i: int) -> AugmentOp {
    if i == 0 {
        AugmentOp::TimeStretch
    } else if i == 1 {
        AugmentOp::GaussianNoise
    } else if i == 2 {
        AugmentOp::TimeShift
    } else {
        AugmentOp::FrequencyMask
    }
}

/// The step numbered `i` (0 to 3): time stretch, Gaussian noise, time
/// shift, frequency mask.
pub fn augment_op_from_index(i: usize) -> (op: AugmentOp)
    requires
        i < 4,
    ensures
        op == op_of_index(i as int),
{
    if i == 0 {
        AugmentOp::TimeStretch
    } else if i == 1 {
        AugmentOp::GaussianNoise
    } else if i == 2 {
        AugmentOp::TimeShift
    } else {
        AugmentOp::FrequencyMask
    }
}

/// The steps for one augmented variant: one to three of them, each drawn
/// uniformly from the four kinds (repeats allowed).
pub fn random_augment_ops() -> (ops: Vec<AugmentOp>)
    ensures
        1 <= ops@.len() <= 3,
{
    let num_ops = random_in_range(1, 3);
    let mut ops: Vec<AugmentOp> = Vec::new();
    let mut i: usize = 0;
    while i < num_ops
        invariant
            i <= num_ops <= 3,
            ops@.len() == i,
        decreases num_ops - i,
    {
        let k = random_in_range(0, 3);
        ops.push(augment_op_from_index(k));
        i = i + 1;
    }
    ops
}

// ---------------------------------------------------------------------------
// Circular time shift
// ---------------------------------------------------------------------------

/// `s` shifted circularly by `shift` positions toward its end: position `i`
/// of the result holds position `(i - shift) mod len` of `s` (the remainder
/// taken in `0..len`).
pub open spec fn rotated<T>(s: Seq<T>, shift: int) -> Seq<T> {
    Seq::new(s.len(), |i: int| s[(i - shift) % (s.len() as int)])
}

proof fn lemma_rotation_index(i: int, shift: int, n: int, q: int, k: int)
    requires
        0 <= k < n,
        0 <= i < n,
        shift == q * n + k,
    ensures
        (i - shift) % n == if i < k {
            n - k + i
        } else {
            i - k
        },
{
    if i < k {
        assert(i - shift == (-q - 1) * n + (n - k + i)) by (nonlinear_arith)
            requires
                shift == q * n + k,
        ;
        lemma_fundamental_div_mod_converse(i - shift, n, -q - 1, n - k + i);
    } else {
        assert(i - shift == (-q) * n + (i - k)) by (nonlinear_arith)
            requires
                shift == q * n + k,
        ;
        lemma_fundamental_div_mod_converse(i - shift, n, -q, i - k);
    }
}

/// Shifting by zero positions leaves a sequence as it is.
pub proof fn lemma_rotated_zero<T>(s: Seq<T>)
    ensures
        rotated(s, 0) == s,
{
    assert forall|i: int| 0 <= i < s.len() implies #[trigger] rotated(s, 0)[i] == s[i] by {
        lemma_rotation_index(i, 0, s.len() as int, 0, 0);
    }
    assert(rotated(s, 0) =~= s);
}

/// A shift by `shift` followed by a shift by `-shift` gives the sequence
/// back.
pub proof fn lemma_rotated_inverse<T>(s: Seq<T>, shift: int)
    ensures
        rotated(rotated(s, shift), -shift) == s,
{
    let n = s.len() as int;
    let r = rotated(s, shift);
    let back = rotated(r, -shift);
    assert forall|i: int| 0 <= i < n implies #[trigger] back[i] == s[i] by {
        let j = (i + shift) % n;
        lemma_fundamental_div_mod(i + shift, n);
        let q = (i + shift) / n;
        // back[i] = r[(i + shift) mod n] = r[j]; r[j] = s[(j - shift) mod n]
        assert(i - (-shift) == i + shift);
        assert(j - shift == i + (-q) * n) by (nonlinear_arith)
            requires
                i + shift == n * q + j,
        ;
        lemma_fundamental_div_mod_converse(j - shift, n, -q, i);
    }
    assert(back =~= s);
}

/// The frames circularly shifted by `shift` positions: frame `i` of the
/// result is frame `(i - shift) mod len` of the input. An empty sequence
/// stays empty.
pub fn circular_shift<T>(frames: Vec<T>, shift: i32) -> (out: Vec<T>)
    ensures
        out@ == rotated(frames@, shift as int),
{
    let n = frames.len();
    if n == 0 {
        assert(frames@ =~= rotated(frames@, shift as int));
        return frames;
    }
    let ghost old_frames = frames@;
    let ghost mut q: int = 0;
    let k: usize;
    if shift >= 0 {
        let s: usize = shift as usize;
        k = s % n;
        proof {
            lemma_fundamental_div_mod(s as int, n as int);
            q = s as int / n as int;
            assert(shift as int == q * n + k) by (nonlinear_arith)
                requires
                    s as int == n * (s as int / n as int) + (s as int % n as int),
                    q == s as int / n as int,
                    k == s as int % n as int,
                    shift as int == s as int,
            ;
        }
    } else {
        let a: usize = (0i64 - shift as i64) as usize;
        let m = a % n;
        proof {
            lemma_fundamental_div_mod(a as int, n as int);
        }
        if m == 0 {
            k = 0;
            proof {
                q = -(a as int / n as int);
                assert(shift as int == q * n + k) by (nonlinear_arith)
                    requires
                        a as int == n * (a as int / n as int) + 0,
                        q == -(a as int / n as int),
                        k == 0,
                        shift as int == -(a as int),
                ;
            }
        } else {
            k = n - m;
            proof {
                q = -(a as int / n as int) - 1;
                assert(shift as int == q * n + k) by (nonlinear_arith)
                    requires
                        a as int == n * (a as int / n as int) + m,
                        q == -(a as int / n as int) - 1,
                        k == n - m,
                        shift as int == -(a as int),
                ;
            }
        }
    }
    let mut head = frames;
    let mut tail = head.split_off(n - k);
    tail.append(&mut head);
    proof {
        assert forall|i: int| 0 <= i < n implies #[trigger] tail@[i] == old_frames[(i - shift)
            % (n as int)] by {
            lemma_rotation_index(i, shift as int, n as int, q, k as int);
        }
        assert(tail@ =~= rotated(old_frames, shift as int));
    }
    tail
}

/// The largest shift that a random time shift draws for a sequence of
/// `len` frames: none below three frames, otherwise `min(5, len / 4)`.
pub open spec fn max_time_shift(len: nat) -> nat {
    if len < 3 {
        0
    } else if len / 4 < 5 {
        len / 4
    } else {
        5
    }
}

/// The time shift for a draw `r` from `0..=2m`, `m` being
/// `max_time_shift` of the number of frames: the frames are shifted
/// circularly by `r - m`.
pub fn shift_by_draw<T>(mfcc: &mut Vec<T>, r: usize)
    requires
        r <= 2 * max_time_shift(old(mfcc)@.len()),
    ensures
        final(mfcc)@ == rotated(
            old(mfcc)@,
            r - max_time_shift(old(mfcc)@.len()) as int,
        ),
{
    proof {
        lemma_rotated_zero(mfcc@);
    }
    let len = mfcc.len();
    let max_shift: usize = if len < 3 {
        0
    } else if len / 4 < 5 {
        len / 4
    } else {
        5
    };
    assert(max_shift == max_time_shift(len as nat));
    let shift: i32 = r as i32 - max_shift as i32;
    if shift == 0 {
        return;
    }
    let mut frames: Vec<T> = Vec::new();
    std::mem::swap(&mut frames, mfcc);
    let shifted = circular_shift(frames, shift);
    *mfcc = shifted;
}

/// Random time shift: the frames are shifted circularly by an amount
/// drawn uniformly from `-m..=m`, where `m` is `max_time_shift` of the
/// number of frames. Sequences with `m == 0` (fewer than four frames)
/// stay as they are.
pub fn time_shift<T>(mfcc: &mut Vec<T>)
    ensures
        exists|s: int|
            -(max_time_shift(old(mfcc)@.len()) as int) <= s <= max_time_shift(old(mfcc)@.len())
                && final(mfcc)@ == #[trigger] rotated(old(mfcc)@, s),
{
    proof {
        lemma_rotated_zero(mfcc@);
    }
    let len = mfcc.len();
    if len < 3 {
        return;
    }
    let max_shift: usize = if len / 4 < 5 {
        len / 4
    } else {
        5
    };
    if max_shift == 0 {
        return;
    }
    let r = random_in_range(0, 2 * max_shift);
    let ghost before = mfcc@;
    shift_by_draw(mfcc, r);
    assert(mfcc@ == rotated(before, r as int - max_shift as int));
}

// ---------------------------------------------------------------------------
// Frequency-band masking
// ---------------------------------------------------------------------------

/// `after` is `before` with every coefficient whose index is in `bands`
/// replaced by `masked`, in every frame; nothing else changes.
pub open spec fn bands_masked<T>(
    before: Seq<Vec<T>>,
    after: Seq<Vec<T>>,
    bands: Seq<usize>,
    masked: T,
) -> bool {
    &&& after.len() == before.len()
    &&& forall|f: int| 0 <= f < before.len() ==> (#[trigger] after[f])@.len() == before[f]@.len()
    &&& forall|f: int, c: int|
        0 <= f < before.len() && 0 <= c < before[f]@.len() ==> #[trigger] after[f]@[c] == if bands.contains(
            c as usize,
        ) {
            masked
        } else {
            before[f]@[c]
        }
}

/// Set the coefficients of the given bands to `masked` in every frame.
pub fn mask_bands<T: Copy>(mfcc: &mut Vec<Vec<T>>, bands: &[usize], masked: T)
    requires
        forall|f: int, b: int|
            0 <= f < old(mfcc)@.len() && 0 <= b < bands@.len() ==> #[trigger] bands@[b] < (
            #[trigger] old(mfcc)@[f])@.len(),
    ensures
        bands_masked(old(mfcc)@, final(mfcc)@, bands@, masked),
{
    let ghost before = mfcc@;
    let num_frames = mfcc.len();
    let mut b: usize = 0;
    while b < bands.len()
        invariant
            0 <= b <= bands@.len(),
            num_frames == before.len(),
            forall|f: int, j: int|
                0 <= f < before.len() && 0 <= j < bands@.len() ==> #[trigger] bands@[j] < (
                #[trigger] before[f])@.len(),
            bands_masked(before, mfcc@, bands@.subrange(0, b as int), masked),
        decreases bands@.len() - b,
    {
        let band = bands[b];
        let ghost mid = mfcc@;
        let mut f: usize = 0;
        while f < num_frames
            invariant
                0 <= b < bands@.len(),
                band == bands@[b as int],
                0 <= f <= num_frames,
                num_frames == before.len(),
                forall|g: int, j: int|
                    0 <= g < before.len() && 0 <= j < bands@.len() ==> #[trigger] bands@[j] < (
                    #[trigger] before[g])@.len(),
                bands_masked(before, mid, bands@.subrange(0, b as int), masked),
                mfcc@.len() == num_frames,
                forall|g: int| 0 <= g < num_frames ==> (#[trigger] mfcc@[g])@.len() == before[g]@.len(),
                forall|g: int, c: int|
                    0 <= g < f && 0 <= c < before[g]@.len() ==> #[trigger] mfcc@[g]@[c] == if c
                        == band {
                        masked
                    } else {
                        mid[g]@[c]
                    },
                forall|g: int| f <= g < num_frames ==> #[trigger] mfcc@[g] == mid[g],
            decreases num_frames - f,
        {
            assert(band < before[f as int]@.len());
            mfcc[f][band] = masked;
            f = f + 1;
        }
        proof {
            let done = bands@.subrange(0, b as int);
            let next = bands@.subrange(0, b + 1);
            assert forall|u: usize| #[trigger] next.contains(u) <==> (done.contains(u) || u == band) by {
                if next.contains(u) {
                    let j = choose|j: int| 0 <= j < next.len() && next[j] == u;
                    if j < b {
                        assert(done[j] == u);
                    }
                }
                if done.contains(u) {
                    let j = choose|j: int| 0 <= j < done.len() && done[j] == u;
                    assert(next[j] == u);
                }
                if u == band {
                    assert(next[b as int] == band);
                }
            }
            assert forall|g: int, c: int|
                0 <= g < before.len() && 0 <= c < before[g]@.len() implies #[trigger] mfcc@[g]@[c]
                == if next.contains(c as usize) {
                masked
            } else {
                before[g]@[c]
            } by {
                assert(mfcc@[g]@[c] == if c == band {
                    masked
                } else {
                    mid[g]@[c]
                });
                assert(before[g]@.len() == before[g].len());
                assert(c as usize == c);
            }
        }
        b = b + 1;
    }
    assert(bands@.subrange(0, bands@.len() as int) =~= bands@);
}

/// The bands for one frequency mask over `num_coeffs` coefficients: one
/// to three of them (no more than there are coefficients), each drawn
/// uniformly below `num_coeffs` (repeats allowed).
pub fn random_mask_bands(num_coeffs: usize) -> (bands: Vec<usize>)
    requires
        num_coeffs > 0,
    ensures
        1 <= bands@.len() <= 3,
        bands@.len() <= num_coeffs,
        forall|j: int| 0 <= j < bands@.len() ==> #[trigger] bands@[j] < num_coeffs,
{
    let most: usize = if num_coeffs < 3 {
        num_coeffs
    } else {
        3
    };
    let num_masks = random_in_range(1, most);
    let mut bands: Vec<usize> = Vec::new();
    let mut i: usize = 0;
    while i < num_masks
        invariant
            i <= num_masks <= most,
            most <= 3,
            most <= num_coeffs,
            0 < num_coeffs,
            bands@.len() == i,
            forall|j: int| 0 <= j < bands@.len() ==> #[trigger] bands@[j] < num_coeffs,
        decreases num_masks - i,
    {
        let band = random_in_range(0, num_coeffs - 1);
        bands.push(band);
        i = i + 1;
    }
    bands
}

/// SpecAugment-style frequency masking: one to three coefficient bands,
/// each drawn uniformly below the coefficient count of the first frame
/// (repeats allowed, and no more bands than there are coefficients), are
/// set to `masked` in every frame. A sequence that is empty, or whose
/// first frame is empty, stays as it is.
pub fn frequency_mask<T: Copy>(mfcc: &mut Vec<Vec<T>>, masked: T)
    requires
        old(mfcc)@.len() > 0 ==> forall|f: int|
            0 <= f < old(mfcc)@.len() ==> (#[trigger] old(mfcc)@[f])@.len() >= old(
                mfcc,
            )@[0]@.len(),
    ensures
        old(mfcc)@.len() == 0 || old(mfcc)@[0]@.len() == 0 ==> final(mfcc)@ == old(mfcc)@,
        old(mfcc)@.len() > 0 && old(mfcc)@[0]@.len() > 0 ==> exists|bands: Seq<usize>|
            {
                &&& 1 <= bands.len() <= 3
                &&& bands.len() <= old(mfcc)@[0]@.len()
                &&& forall|j: int| 0 <= j < bands.len() ==> #[trigger] bands[j] < old(
                    mfcc,
                )@[0]@.len()
                &&& #[trigger] bands_masked(old(mfcc)@, final(mfcc)@, bands, masked)
            },
{
    if mfcc.len() == 0 {
        return;
    }
    if mfcc[0].len() == 0 {
        return;
    }
    let num_coeffs = mfcc[0].len();
    let bands = random_mask_bands(num_coeffs);
    let ghost before = mfcc@;
    assert forall|f: int, b: int|
        0 <= f < before.len() && 0 <= b < bands@.len() implies #[trigger] bands@[b] < (
        #[trigger] before[f])@.len() by {
        assert(before[f]@.len() >= before[0]@.len());
    }
    mask_bands(mfcc, bands.as_slice(), masked);
    assert(bands_masked(before, mfcc@, bands@, masked));
}

} // verus!
