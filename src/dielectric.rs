use vstd::prelude::*;
use crate::material::{Dielectric, lemma_reflect_unit_in_bounds, reflect_ray, reflect_spec};
use crate::pixel::{int_sqrt, isqrt};
use crate::unit::{lemma_unit_of_scaled, normalize, unit_spec};
use crate::vector::{SCALE, Vector3, dot_spec, in_bounds, unit_range};

verus! {

/// Bound on a refraction ratio or refractive index in refraction (fixed point): keeps
/// refracted components within coordinate bounds.
pub const RATIO_BOUND: i64 = 1_000_000;

/// Bound on the refractive index in Schlick's approximation (fixed point).
pub const SCHLICK_BOUND: i64 = 1_000_000_000_000_000;


/// Schlick's approximation of the Fresnel reflectance at incidence cosine `cos` for a
/// refraction ratio `ir` (both fixed point): `r0 + (1 - r0) (1 - cos)^5` with
/// `r0 = ((1 - ir) / (1 + ir))^2`, each quotient rounded down.
pub open spec fn schlick_spec(cos: int, ir: int) -> int {
    let r0 = SCALE * ((SCALE - ir) * (SCALE - ir)) / ((SCALE + ir) * (SCALE + ir));
    let c = SCALE - cos;
    r0 + (SCALE - r0) * (c * c * c * c * c) / (SCALE * SCALE * SCALE * SCALE * SCALE)
}

/// Schlick reflectance, in fixed point.
pub fn reflectance_schlick(cos: i64, ir: i64) -> (r: i64)
    requires
        0 <= cos <= SCALE,
        0 <= ir <= SCHLICK_BOUND,
    ensures
        r == schlick_spec(cos as int, ir as int),
        0 <= r <= SCALE,
{
    let a: i128 = (SCALE - ir) as i128;
    let b: i128 = (SCALE + ir) as i128;
    proof {
        assert(0 <= a * a <= b * b) by (nonlinear_arith)
            requires a == SCALE - ir, b == SCALE + ir, 0 <= ir;
        assert(b * b <= 2_000_000_000_000_000_000_000_000_000_000) by (nonlinear_arith)
            requires b == SCALE + ir, 0 <= ir <= SCHLICK_BOUND;
        assert(b * b >= 1_000_000) by (nonlinear_arith)
            requires b == SCALE + ir, 0 <= ir;
        assert(1000 * (a * a) <= 1000 * (b * b)) by (nonlinear_arith)
            requires 0 <= a * a <= b * b;
        vstd::arithmetic::div_mod::lemma_div_is_ordered(1000 * (a * a), 1000 * (b * b), b * b);
        vstd::arithmetic::div_mod::lemma_div_multiples_vanish(1000, b * b);
        assert(1000 * (b * b) == (b * b) * 1000) by (nonlinear_arith);
        vstd::arithmetic::div_mod::lemma_div_pos_is_pos(1000 * (a * a), b * b);
    }
    let r0: i128 = (SCALE as i128) * (a * a) / (b * b);
    let c: i128 = (SCALE - cos) as i128;
    proof {
        assert(0 <= c * c <= 1_000_000) by (nonlinear_arith)
            requires 0 <= c <= 1000;
        assert(0 <= c * c * c <= 1_000_000_000) by (nonlinear_arith)
            requires 0 <= c <= 1000, 0 <= c * c <= 1_000_000;
        assert(0 <= c * c * c * c <= 1_000_000_000_000) by (nonlinear_arith)
            requires 0 <= c <= 1000, 0 <= c * c * c <= 1_000_000_000;
        assert(0 <= c * c * c * c * c <= 1_000_000_000_000_000) by (nonlinear_arith)
            requires 0 <= c <= 1000, 0 <= c * c * c * c <= 1_000_000_000_000;
        assert(0 <= (SCALE - r0) * (c * c * c * c * c) <= 1_000_000_000_000_000 * 1000) by (nonlinear_arith)
            requires 0 <= SCALE - r0 <= 1000, 0 <= c * c * c * c * c <= 1_000_000_000_000_000;
        assert((SCALE - r0) * (c * c * c * c * c) <= (SCALE - r0) * 1_000_000_000_000_000) by (nonlinear_arith)
            requires 0 <= SCALE - r0, c * c * c * c * c <= 1_000_000_000_000_000;
        vstd::arithmetic::div_mod::lemma_div_is_ordered(
            (SCALE - r0) * (c * c * c * c * c),
            (SCALE - r0) * 1_000_000_000_000_000,
            1_000_000_000_000_000,
        );
        vstd::arithmetic::div_mod::lemma_div_multiples_vanish(SCALE - r0, 1_000_000_000_000_000);
        assert((SCALE - r0) * 1_000_000_000_000_000 == 1_000_000_000_000_000 * (SCALE - r0)) by (nonlinear_arith);
        vstd::arithmetic::div_mod::lemma_div_pos_is_pos((SCALE - r0) * (c * c * c * c * c), 1_000_000_000_000_000);
    }
    let t: i128 = ((SCALE as i128) - r0) * (c * c * c * c * c) / 1_000_000_000_000_000;
    (r0 + t) as i64
}


/// The cosine of the angle between `-v` and `n` (fixed point), capped at 1.
pub open spec fn cos_spec(v: Vector3, n: Vector3) -> int {
    let c = -dot_spec(v, n) / (SCALE as int);
    if c > SCALE { SCALE as int } else { c }
}

/// The component of the refracted direction perpendicular to the normal, on one axis.
pub open spec fn perp_axis(vc: int, nc: int, cos: int, ratio: int) -> int {
    ratio * (vc + cos * nc / (SCALE as int)) / (SCALE as int)
}

pub open spec fn perp_spec(v: Vector3, n: Vector3, ratio: int) -> (int, int, int) {
    let c = cos_spec(v, n);
    (perp_axis(v.x as int, n.x as int, c, ratio), perp_axis(v.y as int, n.y as int, c, ratio), perp_axis(v.z as int, n.z as int, c, ratio))
}

/// The length of the refracted direction's component along the normal: what remains of
/// a unit vector after the perpendicular part (zero if nothing remains).
pub open spec fn para_spec(v: Vector3, n: Vector3, ratio: int) -> int {
    let p = perp_spec(v, n, ratio);
    let pp = p.0 * p.0 + p.1 * p.1 + p.2 * p.2;
    if pp <= SCALE * SCALE { isqrt(SCALE * SCALE - pp) } else { 0 }
}

/// The refracted direction of unit `v` through a surface with unit normal `n` at
/// refraction ratio `ratio` (all fixed point, quotients rounded down).
pub open spec fn refract_spec(v: Vector3, n: Vector3, ratio: int) -> Vector3 {
    let p = perp_spec(v, n, ratio);
    let q = para_spec(v, n, ratio);
    Vector3 {
        x: (p.0 - q * n.x / (SCALE as int)) as i64,
        y: (p.1 - q * n.y / (SCALE as int)) as i64,
        z: (p.2 - q * n.z / (SCALE as int)) as i64,
    }
}

fn cos_of(v: Vector3, n: Vector3) -> (c: i64)
    requires
        unit_range(v),
        unit_range(n),
    ensures
        c == cos_spec(v, n),
        -3000 <= c <= SCALE,
{
    proof {
        assert(-1_000_000 <= v.x * n.x <= 1_000_000) by (nonlinear_arith) requires unit_range(v), unit_range(n);
        assert(-1_000_000 <= v.y * n.y <= 1_000_000) by (nonlinear_arith) requires unit_range(v), unit_range(n);
        assert(-1_000_000 <= v.z * n.z <= 1_000_000) by (nonlinear_arith) requires unit_range(v), unit_range(n);
    }
    let d = v.dot(n);
    let c = crate::material::div_floor_pos(-d, SCALE as i128);
    proof {
        vstd::arithmetic::div_mod::lemma_div_is_ordered(-d as int, 3_000_000, 1000);
        vstd::arithmetic::div_mod::lemma_div_is_ordered(-3_000_000, -d as int, 1000);
    }
    if c > SCALE as i128 { SCALE } else { c as i64 }
}

fn perp_of(vc: i64, nc: i64, cos: i64, ratio: i64) -> (p: i64)
    requires
        -SCALE <= vc <= SCALE,
        -SCALE <= nc <= SCALE,
        -3000 <= cos <= SCALE,
        0 <= ratio <= RATIO_BOUND,
    ensures
        p == perp_axis(vc as int, nc as int, cos as int, ratio as int),
        -4_000_000 <= p <= 4_000_000,
{
    proof {
        assert(-3_000_000 <= cos * nc <= 3_000_000) by (nonlinear_arith)
            requires -3000 <= cos <= SCALE, -SCALE <= nc <= SCALE;
    }
    let a = crate::material::div_floor_pos((cos * nc) as i128, SCALE as i128);
    proof {
        vstd::arithmetic::div_mod::lemma_div_is_ordered((cos * nc) as int, 3_000_000, 1000);
        vstd::arithmetic::div_mod::lemma_div_is_ordered(-3_000_000, (cos * nc) as int, 1000);
        assert(-4_000_000_000 <= ratio * (vc + a) <= 4_000_000_000) by (nonlinear_arith)
            requires 0 <= ratio <= RATIO_BOUND, -4000 <= vc + a <= 4000;
    }
    let b = crate::material::div_floor_pos((ratio as i128) * (vc as i128 + a), SCALE as i128);
    proof {
        vstd::arithmetic::div_mod::lemma_div_is_ordered(ratio * (vc + a), 4_000_000_000, 1000);
        vstd::arithmetic::div_mod::lemma_div_is_ordered(-4_000_000_000, ratio * (vc + a), 1000);
    }
    b as i64
}

/// Refracts unit `v` through a surface with unit normal `n` at refraction ratio `ratio`,
/// normalized to unit length.
pub fn refract(v: Vector3, n: Vector3, ratio: i64) -> (r: Vector3)
    requires
        unit_range(v),
        unit_range(n),
        0 <= ratio <= RATIO_BOUND,
    ensures
        r == unit_spec(refract_spec(v, n, ratio as int)),
        unit_range(r),
{
    let c = cos_of(v, n);
    let px = perp_of(v.x, n.x, c, ratio);
    let py = perp_of(v.y, n.y, c, ratio);
    let pz = perp_of(v.z, n.z, c, ratio);
    proof {
        assert(0 <= px * px <= 16_000_000_000_000) by (nonlinear_arith) requires -4_000_000 <= px <= 4_000_000;
        assert(0 <= py * py <= 16_000_000_000_000) by (nonlinear_arith) requires -4_000_000 <= py <= 4_000_000;
        assert(0 <= pz * pz <= 16_000_000_000_000) by (nonlinear_arith) requires -4_000_000 <= pz <= 4_000_000;
    }
    let pp: i64 = px * px + py * py + pz * pz;
    let q: i64 = if pp <= SCALE * SCALE { int_sqrt(SCALE * SCALE - pp) } else { 0 };
    proof {
        assert(-1_000_000 <= q * n.x <= 1_000_000) by (nonlinear_arith) requires 0 <= q <= SCALE, -SCALE <= n.x <= SCALE;
        assert(-1_000_000 <= q * n.y <= 1_000_000) by (nonlinear_arith) requires 0 <= q <= SCALE, -SCALE <= n.y <= SCALE;
        assert(-1_000_000 <= q * n.z <= 1_000_000) by (nonlinear_arith) requires 0 <= q <= SCALE, -SCALE <= n.z <= SCALE;
        vstd::arithmetic::div_mod::lemma_div_is_ordered((q * n.x) as int, 1_000_000, 1000);
        vstd::arithmetic::div_mod::lemma_div_is_ordered(-1_000_000, (q * n.x) as int, 1000);
        vstd::arithmetic::div_mod::lemma_div_is_ordered((q * n.y) as int, 1_000_000, 1000);
        vstd::arithmetic::div_mod::lemma_div_is_ordered(-1_000_000, (q * n.y) as int, 1000);
        vstd::arithmetic::div_mod::lemma_div_is_ordered((q * n.z) as int, 1_000_000, 1000);
        vstd::arithmetic::div_mod::lemma_div_is_ordered(-1_000_000, (q * n.z) as int, 1000);
    }
    normalize(
        Vector3 {
            x: px - crate::material::div_floor_pos((q * n.x) as i128, SCALE as i128) as i64,
            y: py - crate::material::div_floor_pos((q * n.y) as i128, SCALE as i128) as i64,
            z: pz - crate::material::div_floor_pos((q * n.z) as i128, SCALE as i128) as i64,
        },
    )
}


/// At refraction ratio 1 (refractive index 1), refraction through a surface whose
/// normal points along the y axis leaves an entering unit direction unchanged.
pub proof fn lemma_unit_ratio_does_not_bend(v: Vector3)
    requires
        unit_range(v),
        dot_spec(v, v) == SCALE * SCALE,
        v.y <= 0,
    ensures
        refract_spec(v, Vector3 { x: 0, y: 1000, z: 0 }, SCALE as int) == v,
        unit_spec(refract_spec(v, Vector3 { x: 0, y: 1000, z: 0 }, SCALE as int)) == v,
{
    let n = Vector3 { x: 0, y: 1000, z: 0 };
    assert(dot_spec(v, n) == 1000 * v.y);
    vstd::arithmetic::div_mod::lemma_div_multiples_vanish(-(v.y as int), 1000);
    assert(-(1000 * v.y) == 1000 * (-(v.y as int)));
    let c = cos_spec(v, n);
    assert(c == -v.y);
    assert(c * 1000 == 1000 * c);
    vstd::arithmetic::div_mod::lemma_div_multiples_vanish(c, 1000);
    vstd::arithmetic::div_mod::lemma_div_multiples_vanish(v.x as int, 1000);
    vstd::arithmetic::div_mod::lemma_div_multiples_vanish(v.z as int, 1000);
    assert(0int * 1000 / 1000 == 0);
    assert(1000 * (v.x + c * 0 / 1000) == 1000 * v.x) by (nonlinear_arith);
    assert(1000 * (v.z + c * 0 / 1000) == 1000 * v.z) by (nonlinear_arith);
    assert(1000 * (v.y + c * 1000 / 1000) == 0);
    let p = perp_spec(v, n, 1000);
    assert(p.0 == v.x && p.1 == 0 && p.2 == v.z);
    let pp = p.0 * p.0 + p.1 * p.1 + p.2 * p.2;
    assert(SCALE * SCALE - pp == v.y * v.y);
    assert(v.y * v.y >= 0) by (nonlinear_arith);
    let q = -(v.y as int);
    assert(crate::pixel::is_isqrt(v.y * v.y, q)) by {
        assert(q * q == v.y * v.y) by (nonlinear_arith) requires q == -(v.y as int);
        assert(v.y * v.y < (q + 1) * (q + 1)) by (nonlinear_arith) requires q == -(v.y as int), q >= 0;
    }
    crate::pixel::lemma_isqrt_unique(v.y * v.y, q, isqrt(v.y * v.y));
    assert(para_spec(v, n, 1000) == q);
    vstd::arithmetic::div_mod::lemma_div_multiples_vanish(q, 1000);
    assert(q * 1000 == 1000 * q);
    assert(refract_spec(v, n, 1000) == v);
    lemma_unit_of_scaled(v, 1);
    assert((Vector3 { x: (1 * v.x) as i64, y: (1 * v.y) as i64, z: (1 * v.z) as i64 }) == v);
}

impl Dielectric {
    /// A positive refractive index, at most `RATIO_BOUND`.
    pub open spec fn valid(self) -> bool {
        1 <= self.refractive_index <= RATIO_BOUND
    }

    /// The refraction ratio: `1 / ir` entering through the front face, `ir` leaving.
    pub open spec fn ratio_spec(self, front: bool) -> int {
        if front {
            (SCALE * SCALE) / (self.refractive_index as int)
        } else {
            self.refractive_index as int
        }
    }

    /// Whether the ray reflects: total internal reflection (`ratio * sin > 1`), or the
    /// Schlick reflectance beats the uniform `draw` (out of `SCALE`).
    pub open spec fn reflects(self, v: Vector3, n: Vector3, front: bool, draw: int) -> bool {
        let ratio = self.ratio_spec(front);
        let c = cos_spec(v, n);
        let sin = if c * c <= SCALE * SCALE { isqrt(SCALE * SCALE - c * c) } else { 0 };
        let cc = if c < 0 { 0 } else { c };
        ratio * sin > SCALE * SCALE || schlick_spec(cc, ratio) > draw
    }

    /// Scatters unit direction `v` at a surface with unit normal `n` (oriented against
    /// the ray), `front` telling whether the ray enters; `draw` is uniform in `[0, SCALE)`.
    /// The attenuation is always white.
    pub fn scatter(&self, v: Vector3, n: Vector3, front: bool, draw: i64) -> (r: Vector3)
        requires
            self.valid(),
            unit_range(v),
            unit_range(n),
            dot_spec(n, n) > 0,
        ensures
            r == if self.reflects(v, n, front, draw as int) {
                unit_spec(reflect_spec(v, n))
            } else {
                unit_spec(refract_spec(v, n, self.ratio_spec(front)))
            },
            unit_range(r),
    {
        let ir = self.refractive_index;
        proof {
            vstd::arithmetic::div_mod::lemma_div_is_ordered_by_denominator(1_000_000, 1, ir as int);
            vstd::arithmetic::div_mod::lemma_div_pos_is_pos(1_000_000, ir as int);
        }
        let ratio: i64 = if front { SCALE * SCALE / ir } else { ir };
        let c = cos_of(v, n);
        proof {
            assert(c * c <= 9_000_000) by (nonlinear_arith) requires -3000 <= c <= SCALE;
            assert(c * c >= 0) by (nonlinear_arith);
        }
        let sin: i64 = if c * c <= SCALE * SCALE { int_sqrt(SCALE * SCALE - c * c) } else { 0 };
        let cc: i64 = if c < 0 { 0 } else { c };
        proof {
            assert(ratio * sin <= RATIO_BOUND * SCALE) by (nonlinear_arith)
                requires 0 <= ratio <= RATIO_BOUND, 0 <= sin <= SCALE;
            assert(ratio * sin >= 0) by (nonlinear_arith)
                requires 0 <= ratio, 0 <= sin;
        }
        if ratio * sin > SCALE * SCALE || reflectance_schlick(cc, ratio) > draw {
            proof {
                lemma_reflect_unit_in_bounds(v, n);
            }
            reflect_ray(v, n)
        } else {
            refract(v, n, ratio)
        }
    }
}

} // verus!
