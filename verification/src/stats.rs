//! Histogram counting and luminance statistics.
//!
//! These are the integer inputs of the per-block enhancement: a 256-bin
//! histogram of the 8-bit samples, the luminance channel extracted from the
//! pixel buffer, and the sum, minimum and maximum of a sample window.

use crate::color::max_of3;
use vstd::arithmetic::div_mod::lemma_fundamental_div_mod;
use vstd::prelude::*;

verus! {

/// Number of samples in `s` equal to `v`.
pub open spec fn count_of(s: Seq<u8>, v: u8) -> int
    decreases s.len(),
{
    if s.len() == 0 {
        0
    } else {
        count_of(s.drop_last(), v) + if s.last() == v {
            1int
        } else {
            0int
        }
    }
}

/// Sum of all samples in `s`.
pub open spec fn sum_of(s: Seq<u8>) -> int
    decreases s.len(),
{
    if s.len() == 0 {
        0
    } else {
        sum_of(s.drop_last()) + s.last()
    }
}

/// Smallest sample in `s`, or 255 when `s` is empty.
pub open spec fn min_sample(s: Seq<u8>) -> int
    decreases s.len(),
{
    if s.len() == 0 {
        255
    } else if s.last() < min_sample(s.drop_last()) {
        s.last() as int
    } else {
        min_sample(s.drop_last())
    }
}

/// Largest sample in `s`, or 0 when `s` is empty.
pub open spec fn max_sample(s: Seq<u8>) -> int
    decreases s.len(),
{
    if s.len() == 0 {
        0
    } else if s.last() > max_sample(s.drop_last()) {
        s.last() as int
    } else {
        max_sample(s.drop_last())
    }
}

/// No value occurs more often than there are samples.
pub proof fn lemma_count_le_len(s: Seq<u8>, v: u8)
    ensures
        0 <= count_of(s, v) <= s.len(),
    decreases s.len(),
{
    if s.len() > 0 {
        lemma_count_le_len(s.drop_last(), v);
    }
}

/// Number of samples in `s` no brighter than `v`: the cumulative histogram.
pub open spec fn count_le(s: Seq<u8>, v: int) -> int
    decreases s.len(),
{
    if s.len() == 0 {
        0
    } else {
        count_le(s.drop_last(), v) + if s.last() <= v {
            1int
        } else {
            0int
        }
    }
}

/// Law: the cumulative histogram is non-decreasing in the luminance level.
pub proof fn lemma_cumulative_monotone(s: Seq<u8>, v1: int, v2: int)
    requires
        v1 <= v2,
    ensures
        count_le(s, v1) <= count_le(s, v2),
    decreases s.len(),
{
    if s.len() > 0 {
        lemma_cumulative_monotone(s.drop_last(), v1, v2);
    }
}

/// Law: the cumulative histogram starts at zero below the darkest possible
/// level and its last entry counts every sample — no probability mass is
/// lost or invented by binning.
pub proof fn lemma_cumulative_bounds(s: Seq<u8>, v: int)
    ensures
        0 <= count_le(s, v) <= s.len(),
        v < 0 ==> count_le(s, v) == 0,
        v >= 255 ==> count_le(s, v) == s.len(),
    decreases s.len(),
{
    if s.len() > 0 {
        lemma_cumulative_bounds(s.drop_last(), v);
    }
}

/// Law: each cumulative entry grows over its predecessor by exactly the
/// histogram bin of that level: the 256 bins partition the samples.
pub proof fn lemma_cumulative_step(s: Seq<u8>, v: u8)
    ensures
        count_le(s, v as int) == count_le(s, v as int - 1) + count_of(s, v),
    decreases s.len(),
{
    if s.len() > 0 {
        lemma_cumulative_step(s.drop_last(), v);
    }
}

/// Law: a uniform sample window has zero contrast range — its minimum and
/// maximum are the shared value, so any enhancement branch gated on
/// `max - min` exceeding a threshold stays off — and its sum is the value
/// times the count.
pub proof fn lemma_uniform_window(s: Seq<u8>, v: u8)
    requires
        s.len() > 0,
        forall|i: int| 0 <= i < s.len() ==> s[i] == v,
    ensures
        min_sample(s) == v,
        max_sample(s) == v,
        sum_of(s) == v * s.len(),
    decreases s.len(),
{
    assert(s.last() == v);
    if s.len() == 1 {
        let rest = s.drop_last();
        assert(rest.len() == 0);
        assert(min_sample(rest) == 255);
        assert(max_sample(rest) == 0);
        assert(sum_of(rest) == 0);
        assert(v * 1 == v as int) by (nonlinear_arith);
    } else {
        let rest = s.drop_last();
        assert forall|i: int| 0 <= i < rest.len() implies rest[i] == v by {
            assert(rest[i] == s[i]);
        }
        lemma_uniform_window(rest, v);
        assert(v * s.len() == v * rest.len() + v) by (nonlinear_arith)
            requires
                s.len() == rest.len() + 1,
        ;
    }
}

/// 256-bin histogram of the samples: bin `i` counts the samples equal to
/// `i`. An empty sample window yields the all-zero histogram.
pub fn histogram(samples: &[u8]) -> (hist: Vec<usize>)
    ensures
        hist@.len() == 256,
        forall|v: u8| #![auto] hist@[v as int] == count_of(samples@, v),
{
    let n: usize = samples.len();
    let mut hist: Vec<usize> = Vec::new();
    let mut j: usize = 0;
    while j < 256
        invariant
            hist@.len() == j,
            j <= 256,
            forall|t: int| 0 <= t < j ==> hist@[t] == 0,
        decreases 256 - j,
    {
        hist.push(0);
        j = j + 1;
    }
    proof {
        assert(samples@.take(0) =~= Seq::<u8>::empty());
        assert forall|v: u8| #![auto] hist@[v as int] == count_of(samples@.take(0), v) by {}
    }
    let mut i: usize = 0;
    while i < n
        invariant
            n == samples@.len(),
            i <= n,
            hist@.len() == 256,
            forall|v: u8| #![auto] hist@[v as int] == count_of(samples@.take(i as int), v),
        decreases n - i,
    {
        let l: usize = samples[i] as usize;
        proof {
            lemma_count_le_len(samples@.take(i as int), samples@[i as int]);
        }
        let c: usize = hist[l];
        hist[l] = c + 1;
        proof {
            let pre = samples@.take(i as int);
            let post = samples@.take(i + 1);
            assert(post.drop_last() =~= pre);
            assert(post.last() == samples@[i as int]);
        }
        i = i + 1;
    }
    proof {
        assert(samples@.take(n as int) =~= samples@);
    }
    hist
}

/// The luminance channel of a pixel buffer: one 8-bit sample per pixel,
/// the largest of the pixel's first three channels. Any further channel
/// (alpha) is never read.
pub fn luminances(pixels: &[u8], channel_count: usize) -> (lums: Vec<u8>)
    requires
        3 <= channel_count,
        pixels@.len() as int % channel_count as int == 0,
    ensures
        lums@.len() == pixels@.len() as int / channel_count as int,
        forall|i: int|
            0 <= i < lums@.len() ==> #[trigger] lums@[i] == max_of3(
                pixels@[channel_count * i] as int,
                pixels@[channel_count * i + 1] as int,
                pixels@[channel_count * i + 2] as int,
            ),
{
    let n: usize = pixels.len();
    let count: usize = n / channel_count;
    proof {
        lemma_fundamental_div_mod(n as int, channel_count as int);
    }
    let mut lums: Vec<u8> = Vec::new();
    let mut i: usize = 0;
    while i < count
        invariant
            3 <= channel_count,
            n == pixels@.len(),
            count == n as int / channel_count as int,
            channel_count * count == n,
            i <= count,
            lums@.len() == i,
            forall|j: int|
                0 <= j < i ==> #[trigger] lums@[j] == max_of3(
                    pixels@[channel_count * j] as int,
                    pixels@[channel_count * j + 1] as int,
                    pixels@[channel_count * j + 2] as int,
                ),
        decreases count - i,
    {
        proof {
            assert(channel_count * (i + 1) <= channel_count * count) by (nonlinear_arith)
                requires
                    i + 1 <= count,
                    channel_count >= 0,
            ;
            assert(channel_count * (i + 1) == channel_count * i + channel_count)
                by (nonlinear_arith);
            assert(channel_count * i >= 0) by (nonlinear_arith)
                requires
                    i >= 0,
                    channel_count >= 0,
            ;
        }
        let base: usize = channel_count * i;
        let r: u8 = pixels[base];
        let g: u8 = pixels[base + 1];
        let b: u8 = pixels[base + 2];
        let l: u8 = if r >= g && r >= b {
            r
        } else if g >= b {
            g
        } else {
            b
        };
        lums.push(l);
        i = i + 1;
    }
    lums
}

/// Sum, minimum and maximum of a window of 8-bit samples, in one pass.
/// On an empty window the minimum is reported as 255 and the maximum as 0,
/// matching how a fold over the window would start.
pub fn sample_stats(samples: &[u8]) -> (r: (u128, u8, u8))
    ensures
        r.0 == sum_of(samples@),
        r.1 == min_sample(samples@),
        r.2 == max_sample(samples@),
{
    let n: usize = samples.len();
    let mut sum: u128 = 0;
    let mut mn: u8 = 255;
    let mut mx: u8 = 0;
    let mut i: usize = 0;
    while i < n
        invariant
            n == samples@.len(),
            i <= n,
            sum == sum_of(samples@.take(i as int)),
            sum <= 255 * i,
            mn == min_sample(samples@.take(i as int)),
            mx == max_sample(samples@.take(i as int)),
        decreases n - i,
    {
        let s: u8 = samples[i];
        proof {
            let pre = samples@.take(i as int);
            let post = samples@.take(i + 1);
            assert(post.drop_last() =~= pre);
            assert(post.last() == samples@[i as int]);
        }
        sum = sum + s as u128;
        if s < mn {
            mn = s;
        }
        if s > mx {
            mx = s;
        }
        i = i + 1;
    }
    proof {
        assert(samples@.take(n as int) =~= samples@);
    }
    (sum, mn, mx)
}

} // verus!
