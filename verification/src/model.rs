//! Input layout of the keyword classifier: a variable-length feature
//! sequence becomes a fixed-size channel-first block.
use vstd::prelude::*;

verus! {

proof fn lemma_index_below(c2: int, t2: int, c: int, max: int)
    requires
        0 <= c2 < c,
        0 <= t2 < max,
    ensures
        c2 * max + t2 < c * max,
        0 <= c2 * max + t2,
{
    assert(c2 * max + t2 < c * max) by (nonlinear_arith)
        requires
            0 <= c2 < c,
            0 <= t2 < max,
    ;
    assert(0 <= c2 * max) by (nonlinear_arith)
        requires
            0 <= c2,
            0 <= max,
    ;
}

/// The value at channel `c`, time `t` of the padded block: the feature of
/// frame `t` when the sequence has that frame, the padding value otherwise.
pub open spec fn padded_value<T>(mfcc: Seq<Vec<T>>, c: int, t: int, pad: T) -> T {
    if t < mfcc.len() {
        mfcc[t]@[c]
    } else {
        pad
    }
}

/// Pad or truncate a feature sequence to a fixed number of frames.
///
/// Input:  `[num_frames][num_coefficients]`.
/// Output: `num_coefficients * max_frames` values in channel-first layout,
/// i.e. `[C, T]` flattened: position `c * max_frames + t` holds coefficient
/// `c` of frame `t`, and frames past the end of the input hold `pad`.
/// An empty input gives `max_frames` padding values.
pub fn pad_or_truncate<T: Copy>(mfcc: &[Vec<T>], max_frames: usize, pad: T) -> (out: Vec<T>)
    requires
        mfcc@.len() > 0 ==> mfcc@[0]@.len() * max_frames <= usize::MAX,
        forall|t: int|
            0 <= t < mfcc@.len() && t < max_frames ==> (#[trigger] mfcc@[t])@.len()
                >= mfcc@[0]@.len(),
    ensures
        mfcc@.len() == 0 ==> out@ == Seq::new(max_frames as nat, |i: int| pad),
        mfcc@.len() > 0 ==> {
            &&& out@.len() == mfcc@[0]@.len() * max_frames
            &&& forall|c: int, t: int|
                0 <= c < mfcc@[0]@.len() && 0 <= t < max_frames ==> #[trigger] out@[c * max_frames
                    + t] == padded_value(mfcc@, c, t, pad)
        },
{
    if mfcc.len() == 0 {
        let mut out: Vec<T> = Vec::new();
        let mut i: usize = 0;
        while i < max_frames
            invariant
                i <= max_frames,
                out@ == Seq::new(i as nat, |k: int| pad),
            decreases max_frames - i,
        {
            out.push(pad);
            assert(out@ =~= Seq::new((i + 1) as nat, |k: int| pad));
            i = i + 1;
        }
        return out;
    }
    let num_coeffs = mfcc[0].len();
    let num_frames = mfcc.len();
    let mut out: Vec<T> = Vec::new();
    let mut c: usize = 0;
    while c < num_coeffs
        invariant
            num_coeffs == mfcc@[0]@.len(),
            num_frames == mfcc@.len(),
            num_coeffs * max_frames <= usize::MAX,
            c <= num_coeffs,
            out@.len() == c * max_frames,
            forall|t: int|
                0 <= t < mfcc@.len() && t < max_frames ==> (#[trigger] mfcc@[t])@.len()
                    >= mfcc@[0]@.len(),
            forall|c2: int, t2: int|
                0 <= c2 < c && 0 <= t2 < max_frames ==> #[trigger] out@[c2 * max_frames + t2]
                    == padded_value(mfcc@, c2, t2, pad),
        decreases num_coeffs - c,
    {
        let mut t: usize = 0;
        while t < max_frames
            invariant
                num_coeffs == mfcc@[0]@.len(),
                num_frames == mfcc@.len(),
                num_coeffs * max_frames <= usize::MAX,
                c < num_coeffs,
                t <= max_frames,
                out@.len() == c * max_frames + t,
                forall|t3: int|
                    0 <= t3 < mfcc@.len() && t3 < max_frames ==> (#[trigger] mfcc@[t3])@.len()
                        >= mfcc@[0]@.len(),
                forall|c2: int, t2: int|
                    0 <= c2 < c && 0 <= t2 < max_frames ==> #[trigger] out@[c2 * max_frames + t2]
                        == padded_value(mfcc@, c2, t2, pad),
                forall|t2: int|
                    0 <= t2 < t ==> #[trigger] out@[c * max_frames + t2] == padded_value(
                        mfcc@,
                        c as int,
                        t2,
                        pad,
                    ),
            decreases max_frames - t,
        {
            proof {
                assert(c * max_frames + t < num_coeffs * max_frames) by (nonlinear_arith)
                    requires
                        c < num_coeffs,
                        t < max_frames,
                ;
            }
            let v = if t < num_frames {
                mfcc[t][c]
            } else {
                pad
            };
            let ghost before = out@;
            out.push(v);
            proof {
                assert forall|c2: int, t2: int|
                    0 <= c2 < c && 0 <= t2 < max_frames implies #[trigger] out@[c2 * max_frames
                    + t2] == padded_value(mfcc@, c2, t2, pad) by {
                    lemma_index_below(c2, t2, c as int, max_frames as int);
                    assert(out@[c2 * max_frames + t2] == before[c2 * max_frames + t2]);
                }
                assert forall|t2: int| 0 <= t2 < t + 1 implies #[trigger] out@[c * max_frames
                    + t2] == padded_value(mfcc@, c as int, t2, pad) by {
                    if t2 < t {
                        assert(out@[c * max_frames + t2] == before[c * max_frames + t2]);
                    }
                }
            }
            t = t + 1;
        }
        proof {
            assert((c + 1) * max_frames == c * max_frames + max_frames) by (nonlinear_arith);
            assert forall|c2: int, t2: int|
                0 <= c2 < c + 1 && 0 <= t2 < max_frames implies #[trigger] out@[c2 * max_frames
                + t2] == padded_value(mfcc@, c2, t2, pad) by {
                if c2 == c {
                    assert(out@[c * max_frames + t2] == padded_value(mfcc@, c as int, t2, pad));
                }
            }
        }
        c = c + 1;
    }
    out
}


/// Whether position `k` of the one-hot block holds the mark of one of the
/// first `upto` labels: label `j` marks position `j * num_classes + label`.
pub open spec fn is_marked(labels: Seq<usize>, num_classes: int, upto: int, k: int) -> bool {
    exists|j: int| 0 <= j < upto && #[trigger] (j * num_classes + labels[j]) == k
}

/// One-hot encoding of class labels as a row-major block of
/// `labels.len()` rows of `num_classes` values: label `i` puts `hot` at
/// position `i * num_classes + labels[i]`, every other position holds
/// `cold`. With every label below `num_classes`, row `i` is `hot` exactly at
/// column `labels[i]` (see `lemma_one_hot_rows`).
pub fn one_hot_encode<T: Copy>(labels: &[usize], num_classes: usize, hot: T, cold: T) -> (out:
    Vec<T>)
    requires
        labels@.len() * num_classes <= usize::MAX,
        forall|i: int|
            0 <= i < labels@.len() ==> i * num_classes + #[trigger] labels@[i] < labels@.len()
                * num_classes,
    ensures
        out@.len() == labels@.len() * num_classes,
        forall|k: int|
            0 <= k < out@.len() ==> #[trigger] out@[k] == if is_marked(
                labels@,
                num_classes as int,
                labels@.len() as int,
                k,
            ) {
                hot
            } else {
                cold
            },
{
    let n = labels.len();
    let total = n * num_classes;
    let mut out: Vec<T> = Vec::new();
    let mut k: usize = 0;
    while k < total
        invariant
            k <= total,
            out@ == Seq::new(k as nat, |x: int| cold),
        decreases total - k,
    {
        out.push(cold);
        assert(out@ =~= Seq::new((k + 1) as nat, |x: int| cold));
        k = k + 1;
    }
    let mut i: usize = 0;
    while i < n
        invariant
            i <= n == labels@.len(),
            total == n * num_classes,
            out@.len() == total,
            forall|j: int|
                0 <= j < labels@.len() ==> j * num_classes + #[trigger] labels@[j] < labels@.len()
                    * num_classes,
            forall|x: int|
                0 <= x < out@.len() ==> #[trigger] out@[x] == if is_marked(
                    labels@,
                    num_classes as int,
                    i as int,
                    x,
                ) {
                    hot
                } else {
                    cold
                },
        decreases n - i,
    {
        assert(i * num_classes + labels@[i as int] < total);
        assert(i * num_classes <= total) by (nonlinear_arith)
            requires
                i < n,
                total == n * num_classes,
        ;
        let pos = i * num_classes + labels[i];
        let ghost before = out@;
        out[pos] = hot;
        proof {
            assert forall|x: int| 0 <= x < out@.len() implies #[trigger] out@[x] == if is_marked(
                labels@,
                num_classes as int,
                i + 1,
                x,
            ) {
                hot
            } else {
                cold
            } by {
                if x == pos {
                    assert(i * num_classes + labels@[i as int] == x);
                } else {
                    assert(out@[x] == before[x]);
                    if is_marked(labels@, num_classes as int, i + 1, x) {
                        let j = choose|j: int|
                            0 <= j < i + 1 && #[trigger] (j * num_classes + labels@[j]) == x;
                        assert(j != i);
                        assert(is_marked(labels@, num_classes as int, i as int, x));
                    }
                    if is_marked(labels@, num_classes as int, i as int, x) {
                        let j = choose|j: int|
                            0 <= j < i && #[trigger] (j * num_classes + labels@[j]) == x;
                        assert(0 <= j < i + 1 && j * num_classes + labels@[j] == x);
                    }
                }
            }
        }
        i = i + 1;
    }
    out
}

/// With every label below the class count, row `i` of the one-hot block is
/// marked at column `labels[i]` and nowhere else.
pub proof fn lemma_one_hot_rows(labels: Seq<usize>, num_classes: int, i: int, c: int)
    requires
        forall|j: int| 0 <= j < labels.len() ==> #[trigger] labels[j] < num_classes,
        0 <= i < labels.len(),
        0 <= c < num_classes,
    ensures
        is_marked(labels, num_classes, labels.len() as int, i * num_classes + c) <==> c
            == labels[i],
{
    if c == labels[i] {
        assert(i * num_classes + labels[i] == i * num_classes + c);
    }
    if is_marked(labels, num_classes, labels.len() as int, i * num_classes + c) {
        let j = choose|j: int|
            0 <= j < labels.len() && #[trigger] (j * num_classes + labels[j]) == i * num_classes
                + c;
        let lj = labels[j] as int;
        assert(lj < num_classes);
        if j < i {
            assert(j * num_classes + lj < i * num_classes) by (nonlinear_arith)
                requires
                    j < i,
                    0 <= lj < num_classes,
            ;
        } else if j > i {
            assert(i * num_classes + c < j * num_classes) by (nonlinear_arith)
                requires
                    i < j,
                    0 <= c < num_classes,
            ;
        }
    }
}

/// Batch `b` of mini-batches of `batch_size` items over `num_items` items:
/// the index range `[b * batch_size, min((b + 1) * batch_size, num_items))`.
pub open spec fn batch_range(b: int, batch_size: int, num_items: int) -> (int, int) {
    let start = b * batch_size;
    let end = (b + 1) * batch_size;
    (start, if end < num_items {
        end
    } else {
        num_items
    })
}

/// The number of mini-batches: `num_items / batch_size` rounded up.
pub open spec fn batch_count(num_items: int, batch_size: int) -> int {
    (num_items + batch_size - 1) / batch_size
}

/// The index ranges of the mini-batches over `num_items` items taken
/// `batch_size` at a time, in order; the last one may be shorter.
pub fn batch_ranges(num_items: usize, batch_size: usize) -> (ranges: Vec<(usize, usize)>)
    requires
        batch_size > 0,
        num_items + batch_size <= usize::MAX,
    ensures
        ranges@.len() == batch_count(num_items as int, batch_size as int),
        forall|b: int|
            0 <= b < ranges@.len() ==> (#[trigger] ranges@[b].0 as int, ranges@[b].1 as int)
                == batch_range(b, batch_size as int, num_items as int),
{
    let count = (num_items + batch_size - 1) / batch_size;
    let mut ranges: Vec<(usize, usize)> = Vec::new();
    let mut b: usize = 0;
    while b < count
        invariant
            batch_size > 0,
            count == batch_count(num_items as int, batch_size as int),
            num_items + batch_size <= usize::MAX,
            b <= count,
            ranges@.len() == b,
            forall|k: int|
                0 <= k < b ==> (#[trigger] ranges@[k].0 as int, ranges@[k].1 as int) == batch_range(
                    k,
                    batch_size as int,
                    num_items as int,
                ),
        decreases count - b,
    {
        proof {
            lemma_batch_start_below(b as int, batch_size as int, num_items as int);
        }
        let start = b * batch_size;
        let end = if num_items - start < batch_size {
            num_items
        } else {
            start + batch_size
        };
        proof {
            assert((b + 1) * batch_size == b * batch_size + batch_size) by (nonlinear_arith);
        }
        ranges.push((start, end));
        b = b + 1;
    }
    ranges
}

proof fn lemma_batch_start_below(b: int, batch_size: int, num_items: int)
    requires
        batch_size > 0,
        num_items >= 0,
        0 <= b < batch_count(num_items, batch_size),
    ensures
        b * batch_size < num_items,
{
    let q = batch_count(num_items, batch_size);
    vstd::arithmetic::div_mod::lemma_fundamental_div_mod(num_items + batch_size - 1, batch_size);
    let r = (num_items + batch_size - 1) % batch_size;
    assert(0 <= r < batch_size);
    assert(num_items + batch_size - 1 == batch_size * q + r);
    assert(b + 1 <= q);
    assert(batch_size * (b + 1) <= batch_size * q) by (nonlinear_arith)
        requires
            b + 1 <= q,
            batch_size > 0,
    ;
    assert(b * batch_size + batch_size == batch_size * (b + 1)) by (nonlinear_arith);
}

/// The mini-batches split the items: each item index below `num_items`
/// lies in batch `i / batch_size` and in no other batch.
pub proof fn lemma_batches_partition(num_items: int, batch_size: int, i: int, b: int)
    requires
        batch_size > 0,
        0 <= i < num_items,
        0 <= b < batch_count(num_items, batch_size),
    ensures
        i / batch_size < batch_count(num_items, batch_size),
        (batch_range(b, batch_size, num_items).0 <= i < batch_range(b, batch_size, num_items).1)
            <==> b == i / batch_size,
{
    vstd::arithmetic::div_mod::lemma_fundamental_div_mod(i, batch_size);
    let q = i / batch_size;
    let r = i % batch_size;
    assert(i == batch_size * q + r);
    assert(0 <= r < batch_size);
    assert(0 <= q) by (nonlinear_arith)
        requires
            i == batch_size * q + r,
            0 <= i,
            r < batch_size,
            batch_size > 0,
    ;
    vstd::arithmetic::div_mod::lemma_fundamental_div_mod(num_items + batch_size - 1, batch_size);
    let c = batch_count(num_items, batch_size);
    let rc = (num_items + batch_size - 1) % batch_size;
    assert(num_items + batch_size - 1 == batch_size * c + rc);
    assert(0 <= rc < batch_size);
    assert(q < c) by (nonlinear_arith)
        requires
            i == batch_size * q + r,
            0 <= r < batch_size,
            i < num_items,
            num_items + batch_size - 1 == batch_size * c + rc,
            0 <= rc < batch_size,
            batch_size > 0,
    ;
    assert(b * batch_size <= i < (b + 1) * batch_size <==> b == q) by (nonlinear_arith)
        requires
            i == batch_size * q + r,
            0 <= r < batch_size,
            batch_size > 0,
    ;
}

} // verus!
