use vstd::prelude::*;
use crate::color::{Color, Rgb8};
use crate::vector::SCALE;

verus! {

/// `r` is the integer square root of `n`.
pub open spec fn is_isqrt(n: int, r: int) -> bool {
    0 <= r && r * r <= n < (r + 1) * (r + 1)
}

/// The integer square root of a non-negative `n`.
pub open spec fn isqrt(n: int) -> int {
    choose|r: int| is_isqrt(n, r)
}

pub(crate) proof fn lemma_isqrt_unique(n: int, r1: int, r2: int)
    requires
        is_isqrt(n, r1),
        is_isqrt(n, r2),
    ensures
        r1 == r2,
{
    if r1 < r2 {
        assert((r1 + 1) * (r1 + 1) <= r2 * r2) by (nonlinear_arith)
            requires
                0 <= r1 < r2,
        ;
    } else if r2 < r1 {
        assert((r2 + 1) * (r2 + 1) <= r1 * r1) by (nonlinear_arith)
            requires
                0 <= r2 < r1,
        ;
    }
}

/// Integer square root of `n`, for `n` up to `SCALE * SCALE`, by bisection.
pub fn int_sqrt(n: i64) -> (r: i64)
    requires
        0 <= n <= SCALE * SCALE,
    ensures
        is_isqrt(n as int, r as int),
        r == isqrt(n as int),
        0 <= r <= SCALE,
{
    let mut lo: i64 = 0;
    let mut hi: i64 = SCALE + 1;
    while lo + 1 < hi
        invariant
            0 <= lo < hi <= SCALE + 1,
            lo * lo <= n,
            n < hi * hi,
        decreases hi - lo,
    {
        let mid: i64 = lo + (hi - lo) / 2;
        assert(mid * mid <= 1001 * 1001) by (nonlinear_arith)
            requires
                0 <= mid <= 1001,
        ;
        if mid * mid <= n {
            lo = mid;
        } else {
            hi = mid;
        }
    }
    proof {
        assert(is_isqrt(n as int, lo as int));
        lemma_isqrt_unique(n as int, lo as int, isqrt(n as int));
    }
    lo
}

/// One 8-bit channel from an averaged linear channel `avg` (out of `SCALE`):
/// gamma 2 (square root), then scaled to 256 levels and clamped to 255.
pub open spec fn quantize(avg: int) -> int {
    let g = isqrt(avg * SCALE);
    if 256 * g / (SCALE as int) > 255 {
        255
    } else {
        256 * g / (SCALE as int)
    }
}

fn quantize_channel(sum: i64, spp: i64) -> (q: u8)
    requires
        1 <= spp <= 1_000_000,
        0 <= sum <= spp * SCALE,
    ensures
        q == quantize(sum as int / spp as int),
{
    let avg: i64 = sum / spp;
    assert(avg <= SCALE) by (nonlinear_arith)
        requires
            1 <= spp,
            0 <= sum <= spp * SCALE,
            avg == sum / spp,
    ;
    let g = int_sqrt(avg * SCALE);
    let level: i64 = 256 * g / SCALE;
    if level > 255 {
        255
    } else {
        level as u8
    }
}

pub open spec fn sum_of(samples: Seq<Color>, k: int) -> Color
    decreases k,
{
    if k <= 0 {
        Color { r: 0, g: 0, b: 0 }
    } else {
        let s = sum_of(samples, k - 1);
        Color {
            r: (s.r + samples[k - 1].r) as i64,
            g: (s.g + samples[k - 1].g) as i64,
            b: (s.b + samples[k - 1].b) as i64,
        }
    }
}

proof fn lemma_sum_bounds(samples: Seq<Color>, k: int)
    requires
        0 <= k <= samples.len(),
        samples.len() <= 1_000_000,
        forall|i: int| 0 <= i < samples.len() ==> (#[trigger] samples[i]).valid(),
    ensures
        0 <= sum_of(samples, k).r <= k * SCALE,
        0 <= sum_of(samples, k).g <= k * SCALE,
        0 <= sum_of(samples, k).b <= k * SCALE,
    decreases k,
{
    if k > 0 {
        lemma_sum_bounds(samples, k - 1);
        assert(samples[k - 1].valid());
    }
}

/// The averaged pixel of a set of samples: the mean of each channel, gamma-corrected
/// and quantized to eight bits.
pub open spec fn pixel_spec(samples: Seq<Color>) -> Rgb8 {
    let s = sum_of(samples, samples.len() as int);
    Rgb8 {
        r: quantize(s.r as int / samples.len() as int) as u8,
        g: quantize(s.g as int / samples.len() as int) as u8,
        b: quantize(s.b as int / samples.len() as int) as u8,
    }
}

/// Averages the samples taken for one pixel into its final 8-bit color.
pub fn pixel_from_samples(samples: &Vec<Color>) -> (p: Rgb8)
    requires
        1 <= samples.len() <= 1_000_000,
        forall|i: int| 0 <= i < samples.len() ==> (#[trigger] samples@[i]).valid(),
    ensures
        p == pixel_spec(samples@),
{
    let mut sum = Color { r: 0, g: 0, b: 0 };
    let mut k: usize = 0;
    while k < samples.len()
        invariant
            0 <= k <= samples.len(),
            1 <= samples.len() <= 1_000_000,
            forall|i: int| 0 <= i < samples.len() ==> (#[trigger] samples@[i]).valid(),
            sum == sum_of(samples@, k as int),
        decreases samples.len() - k,
    {
        proof {
            lemma_sum_bounds(samples@, k as int);
            assert(samples@[k as int].valid());
        }
        let c = samples[k];
        sum = Color { r: sum.r + c.r, g: sum.g + c.g, b: sum.b + c.b };
        k = k + 1;
    }
    proof {
        lemma_sum_bounds(samples@, k as int);
    }
    let spp = samples.len() as i64;
    Rgb8 {
        r: quantize_channel(sum.r, spp),
        g: quantize_channel(sum.g, spp),
        b: quantize_channel(sum.b, spp),
    }
}

} // verus!
