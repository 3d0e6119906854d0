use vstd::prelude::*;
use crate::pixel::{is_isqrt, isqrt, lemma_isqrt_unique};
use crate::vector::{SCALE, Vector3, dot_spec, in_bounds, unit_range};

verus! {

/// Integer square root of `n`, for `n` up to `4 * 10^24`, by bisection.
pub fn int_sqrt_wide(n: i128) -> (r: i128)
    requires
        0 <= n <= 4_000_000_000_000_000_000_000_000,
    ensures
        is_isqrt(n as int, r as int),
        r == isqrt(n as int),
        0 <= r <= 2_000_000_000_000,
{
    let mut lo: i128 = 0;
    let mut hi: i128 = 2_000_000_000_001;
    assert(n < hi * hi);
    while lo + 1 < hi
        invariant
            0 <= lo < hi <= 2_000_000_000_001,
            lo * lo <= n,
            n < hi * hi,
        decreases hi - lo,
    {
        let mid: i128 = lo + (hi - lo) / 2;
        assert(mid * mid <= 2_000_000_000_001 * 2_000_000_000_001) by (nonlinear_arith)
            requires
                0 <= mid <= 2_000_000_000_001,
        ;
        if mid * mid <= n {
            lo = mid;
        } else {
            hi = mid;
        }
    }
    proof {
        assert(is_isqrt(n as int, lo as int));
        lemma_isqrt_unique(n as int, lo as int, isqrt(n as int));
    }
    lo
}

/// The fixed-point unit vector along `v`: each component divided by the length, which
/// is taken to a thousandth of a unit (`isqrt(|v|^2 SCALE^2)`), scaled to `SCALE` and
/// rounded down; the zero vector stays zero.
pub open spec fn unit_spec(v: Vector3) -> Vector3 {
    let len = isqrt(dot_spec(v, v) * 1_000_000);
    if len == 0 {
        Vector3 { x: 0, y: 0, z: 0 }
    } else {
        Vector3 {
            x: (v.x * 1_000_000 / len) as i64,
            y: (v.y * 1_000_000 / len) as i64,
            z: (v.z * 1_000_000 / len) as i64,
        }
    }
}

proof fn lemma_component_within_len(c: int, nn: int, len: int)
    requires
        c * c <= nn,
        is_isqrt(nn, len),
    ensures
        -len <= c <= len,
{
    if c > len {
        assert(c * c >= (len + 1) * (len + 1)) by (nonlinear_arith)
            requires c >= len + 1, len >= 0;
    }
    if c < -len {
        assert(c * c >= (len + 1) * (len + 1)) by (nonlinear_arith)
            requires c <= -(len + 1), len >= 0;
    }
}

fn unit_axis(c: i64, len: i128) -> (r: i64)
    requires
        -len <= c * 1000 <= len,
        -1_000_000_000 <= c <= 1_000_000_000,
        1 <= len <= 2_000_000_000_000,
    ensures
        r == c * 1_000_000 / (len as int),
        -SCALE <= r <= SCALE,
{
    proof {
        assert(-len * 1000 <= c * 1_000_000 <= len * 1000) by (nonlinear_arith)
            requires -len <= c * 1000 <= len, len >= 1;
        vstd::arithmetic::div_mod::lemma_div_is_ordered(c * 1_000_000, len * 1000, len as int);
        vstd::arithmetic::div_mod::lemma_div_is_ordered(-len * 1000, c * 1_000_000, len as int);
        vstd::arithmetic::div_mod::lemma_div_multiples_vanish(1000, len as int);
        vstd::arithmetic::div_mod::lemma_div_multiples_vanish(-1000, len as int);
        assert(len * 1000 == len * 1000int);
        assert(-len * 1000 == len * -1000int) by (nonlinear_arith);
    }
    crate::material::div_floor_pos((c as i128) * 1_000_000, len) as i64
}

/// Normalizes `v` to fixed-point unit length.
pub fn normalize(v: Vector3) -> (r: Vector3)
    requires
        in_bounds(v),
    ensures
        r == unit_spec(v),
        unit_range(r),
{
    proof {
        assert(0 <= v.x * v.x <= 1_000_000_000_000_000_000) by (nonlinear_arith)
            requires -1_000_000_000 <= v.x <= 1_000_000_000;
        assert(0 <= v.y * v.y <= 1_000_000_000_000_000_000) by (nonlinear_arith)
            requires -1_000_000_000 <= v.y <= 1_000_000_000;
        assert(0 <= v.z * v.z <= 1_000_000_000_000_000_000) by (nonlinear_arith)
            requires -1_000_000_000 <= v.z <= 1_000_000_000;
    }
    let nn = v.dot(v);
    let len = int_sqrt_wide(nn * 1_000_000);
    if len == 0 {
        return Vector3 { x: 0, y: 0, z: 0 };
    }
    proof {
        assert((v.x * 1000) * (v.x * 1000) == (v.x * v.x) * 1_000_000) by (nonlinear_arith);
        assert((v.y * 1000) * (v.y * 1000) == (v.y * v.y) * 1_000_000) by (nonlinear_arith);
        assert((v.z * 1000) * (v.z * 1000) == (v.z * v.z) * 1_000_000) by (nonlinear_arith);
        lemma_component_within_len(v.x * 1000, nn * 1_000_000, len as int);
        lemma_component_within_len(v.y * 1000, nn * 1_000_000, len as int);
        lemma_component_within_len(v.z * 1000, nn * 1_000_000, len as int);
    }
    Vector3 { x: unit_axis(v.x, len), y: unit_axis(v.y, len), z: unit_axis(v.z, len) }
}

/// Normalizing a vector that is `t` times an exact unit vector gives that unit vector.
pub proof fn lemma_unit_of_scaled(n: Vector3, t: int)
    requires
        unit_range(n),
        dot_spec(n, n) == SCALE * SCALE,
        1 <= t <= 1000,
    ensures
        unit_spec(Vector3 { x: (t * n.x) as i64, y: (t * n.y) as i64, z: (t * n.z) as i64 }) == n,
{
    let (n1, n2, n3) = (n.x as int, n.y as int, n.z as int);
    assert(-1_000_000 <= t * n1 <= 1_000_000) by (nonlinear_arith) requires 1 <= t <= 1000, -1000 <= n1 <= 1000;
    assert(-1_000_000 <= t * n2 <= 1_000_000) by (nonlinear_arith) requires 1 <= t <= 1000, -1000 <= n2 <= 1000;
    assert(-1_000_000 <= t * n3 <= 1_000_000) by (nonlinear_arith) requires 1 <= t <= 1000, -1000 <= n3 <= 1000;
    let v = Vector3 { x: (t * n1) as i64, y: (t * n2) as i64, z: (t * n3) as i64 };
    let len = t * 1_000_000;
    assert((t * n1) * (t * n1) == t * t * (n1 * n1)) by (nonlinear_arith);
    assert((t * n2) * (t * n2) == t * t * (n2 * n2)) by (nonlinear_arith);
    assert((t * n3) * (t * n3) == t * t * (n3 * n3)) by (nonlinear_arith);
    assert(t * t * (n1 * n1) + t * t * (n2 * n2) + t * t * (n3 * n3) == t * t * (n1 * n1 + n2 * n2
        + n3 * n3)) by (nonlinear_arith);
    assert(dot_spec(v, v) == t * t * (n1 * n1 + n2 * n2 + n3 * n3));
    let w = dot_spec(v, v) * 1_000_000;
    assert(w == len * len) by (nonlinear_arith)
        requires w == dot_spec(v, v) * 1_000_000, dot_spec(v, v) == t * t * 1_000_000, len == t * 1_000_000;
    assert(is_isqrt(w, len)) by {
        assert(len * len < (len + 1) * (len + 1)) by (nonlinear_arith) requires len >= 0;
    }
    lemma_isqrt_unique(w, len, isqrt(w));
    assert(t * n1 * 1_000_000 == len * n1) by (nonlinear_arith) requires len == t * 1_000_000;
    assert(t * n2 * 1_000_000 == len * n2) by (nonlinear_arith) requires len == t * 1_000_000;
    assert(t * n3 * 1_000_000 == len * n3) by (nonlinear_arith) requires len == t * 1_000_000;
    vstd::arithmetic::div_mod::lemma_div_multiples_vanish(n1, len);
    vstd::arithmetic::div_mod::lemma_div_multiples_vanish(n2, len);
    vstd::arithmetic::div_mod::lemma_div_multiples_vanish(n3, len);
}

} // verus!
