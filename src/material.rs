use vstd::prelude::*;
use crate::color::Color;
use crate::unit::{lemma_unit_of_scaled, normalize, unit_spec};
use crate::vector::{COORD_BOUND, SCALE, Vector3, dot_spec, in_bounds, unit_range};

verus! {

/// Side of a checker cell, in fixed-point units.
pub const CHECKER_CELL: i64 = 314;

/// A surface color pattern.
#[derive(Clone, Copy, Debug, PartialEq, Eq, Structural)]
pub enum Texture {
    /// One color everywhere.
    Solid { color: Color },
    /// A 3-D checkerboard of cubes of side `CHECKER_CELL`, alternating between two colors.
    Checkered { even: Color, odd: Color },
}

pub open spec fn floor_div(a: int, b: int) -> int {
    a / b
}

/// Parity of the checker cell holding point `p`.
pub open spec fn checker_even(p: Vector3) -> bool {
    (floor_div(p.x as int, CHECKER_CELL as int) + floor_div(p.y as int, CHECKER_CELL as int)
        + floor_div(p.z as int, CHECKER_CELL as int)) % 2 == 0
}

/// Floor division of a coordinate by the checker cell side.
fn cell_index(v: i64) -> (r: i64)
    ensures
        r == floor_div(v as int, CHECKER_CELL as int),
{
    let q: i64 = v / CHECKER_CELL;
    let m: i64 = v % CHECKER_CELL;
    if m < 0 {
        q - 1
    } else {
        q
    }
}

impl Texture {
    pub open spec fn color_spec(self, p: Vector3) -> Color {
        match self {
            Texture::Solid { color } => color,
            Texture::Checkered { even, odd } => if checker_even(p) {
                even
            } else {
                odd
            },
        }
    }

    /// The texture's color at point `p`.
    pub fn color(&self, p: Vector3) -> (c: Color)
        ensures
            c == self.color_spec(p),
    {
        match self {
            Texture::Solid { color } => *color,
            Texture::Checkered { even, odd } => {
                let s: i128 = cell_index(p.x) as i128 + cell_index(p.y) as i128 + cell_index(
                    p.z,
                ) as i128;
                if s % 2 == 0 {
                    *even
                } else {
                    *odd
                }
            },
        }
    }
}

/// A diffuse material whose attenuation is its texture's color at the hit point.
#[derive(Clone, Copy, Debug, PartialEq, Eq, Structural)]
pub struct Lambertian {
    pub albedo: Texture,
}

/// The diffuse bounce direction: the normal plus a random vector, or the normal alone
/// when the sum cancels to zero.
pub open spec fn lambertian_direction(normal: Vector3, random: Vector3) -> Vector3 {
    let s = Vector3 {
        x: (normal.x + random.x) as i64,
        y: (normal.y + random.y) as i64,
        z: (normal.z + random.z) as i64,
    };
    if s.x == 0 && s.y == 0 && s.z == 0 {
        normal
    } else {
        s
    }
}

impl Lambertian {
    /// Scatters a ray diffusely about the unit `normal`, perturbed by `random` (a sample
    /// of the unit sphere): the fixed-point unit vector along `normal + random`, or along
    /// the normal when the sum cancels. The direction normalized lies in the normal's
    /// hemisphere whenever `random` is no longer than the normal.
    pub fn scatter(&self, normal: Vector3, random: Vector3) -> (d: Vector3)
        requires
            unit_range(normal),
            unit_range(random),
        ensures
            d == unit_spec(lambertian_direction(normal, random)),
            unit_range(d),
            dot_spec(random, random) <= dot_spec(normal, normal) ==> dot_spec(
                lambertian_direction(normal, random),
                normal,
            ) >= 0,
    {
        let s = normal.add(random);
        proof {
            if dot_spec(random, random) <= dot_spec(normal, normal) {
                lemma_hemisphere(normal, random);
            }
        }
        if s.near_zero() {
            normalize(normal)
        } else {
            normalize(s)
        }
    }

    /// The attenuation at point `p`.
    pub fn color(&self, p: Vector3) -> (c: Color)
        ensures
            c == self.albedo.color_spec(p),
    {
        self.albedo.color(p)
    }
}

proof fn lemma_square_expand(a: int, b: int)
    ensures
        (a + b) * (a + b) == a * a + 2 * (a * b) + b * b,
        a * a >= 0,
        (a + b) * (a + b) >= 0,
        (a + b) * a == a * a + a * b,
        a * b == b * a,
{
    assert((a + b) * (a + b) == a * a + 2 * (a * b) + b * b) by (nonlinear_arith);
    assert(a * a >= 0) by (nonlinear_arith);
    assert((a + b) * (a + b) >= 0) by (nonlinear_arith);
    assert((a + b) * a == a * a + a * b) by (nonlinear_arith);
    assert(a * b == b * a) by (nonlinear_arith);
}

/// The diffuse direction never points below the surface.
proof fn lemma_hemisphere(n: Vector3, r: Vector3)
    requires
        in_bounds(n),
        in_bounds(r),
        dot_spec(r, r) <= dot_spec(n, n),
    ensures
        dot_spec(lambertian_direction(n, r), n) >= 0,
{
    lemma_square_expand(n.x as int, r.x as int);
    lemma_square_expand(n.y as int, r.y as int);
    lemma_square_expand(n.z as int, r.z as int);
    lemma_square_expand(r.x as int, n.x as int);
    lemma_square_expand(r.y as int, n.y as int);
    lemma_square_expand(r.z as int, n.z as int);
    let nn = dot_spec(n, n);
    let nr = dot_spec(n, r);
    // |n + r|^2 = |n|^2 + 2 n.r + |r|^2 >= 0, and |r|^2 <= |n|^2, so n.r >= -|n|^2.
    assert(nr >= -nn);
    let d = lambertian_direction(n, r);
    if !(d == n) {
        assert(dot_spec(d, n) == nn + nr);
    }
}

/// Mirror reflection of `v` about the normal `n`: `v - 2 (v.n) n / |n|^2`, each
/// component rounded down.
pub open spec fn reflect_spec(v: Vector3, n: Vector3) -> Vector3 {
    let k = 2 * dot_spec(v, n);
    let s = dot_spec(n, n);
    Vector3 {
        x: (v.x - k * n.x / s) as i64,
        y: (v.y - k * n.y / s) as i64,
        z: (v.z - k * n.z / s) as i64,
    }
}


/// A specular material: mirror reflection perturbed by `fuzz` (out of `SCALE`).
#[derive(Clone, Copy, Debug, PartialEq, Eq, Structural)]
pub struct Metal {
    pub color: Color,
    pub fuzz: i64,
}

/// A clear refracting material with the given refractive index (fixed point).
#[derive(Clone, Copy, Debug, PartialEq, Eq, Structural)]
pub struct Dielectric {
    pub refractive_index: i64,
}

/// The closed set of surface materials.
#[derive(Clone, Copy, Debug, PartialEq, Eq, Structural)]
pub enum Material {
    Lambertian(Lambertian),
    Metal(Metal),
    Dielectric(Dielectric),
}

/// The metal bounce direction: the mirror direction plus `fuzz` times the random vector.
pub open spec fn metal_direction(reflected: Vector3, fuzz: i64, random: Vector3) -> Vector3 {
    Vector3 {
        x: (reflected.x + fuzz * random.x / (SCALE as int)) as i64,
        y: (reflected.y + fuzz * random.y / (SCALE as int)) as i64,
        z: (reflected.z + fuzz * random.z / (SCALE as int)) as i64,
    }
}

impl Metal {
    pub open spec fn valid(self) -> bool {
        0 <= self.fuzz <= SCALE
    }

    /// Scatters an incoming direction `v` off a surface with unit normal `n`: the unit
    /// mirror direction perturbed by `fuzz` times `random` (a sample of the unit ball),
    /// normalized. Absorbed (`None`) when the perturbed direction does not leave the
    /// surface.
    pub fn scatter(&self, v: Vector3, n: Vector3, random: Vector3) -> (r: Option<Vector3>)
        requires
            self.valid(),
            -SCALE <= v.x <= SCALE,
            -SCALE <= v.y <= SCALE,
            -SCALE <= v.z <= SCALE,
            -SCALE <= n.x <= SCALE,
            -SCALE <= n.y <= SCALE,
            -SCALE <= n.z <= SCALE,
            -SCALE <= random.x <= SCALE,
            -SCALE <= random.y <= SCALE,
            -SCALE <= random.z <= SCALE,
            dot_spec(n, n) > 0,
        ensures
            ({
                let d = metal_direction(unit_spec(reflect_spec(v, n)), self.fuzz, random);
                r == if dot_spec(d, n) > 0 {
                    Some(unit_spec(d))
                } else {
                    None::<Vector3>
                }
            }),
            r matches Some(u) ==> unit_range(u),
    {
        proof {
            lemma_reflect_unit_in_bounds(v, n);
        }
        let m = reflect_ray(v, n);
        let f = self.fuzz;
        proof {
            assert(-1_000_000 <= f * random.x <= 1_000_000) by (nonlinear_arith)
                requires 0 <= f <= SCALE, -SCALE <= random.x <= SCALE;
            assert(-1_000_000 <= f * random.y <= 1_000_000) by (nonlinear_arith)
                requires 0 <= f <= SCALE, -SCALE <= random.y <= SCALE;
            assert(-1_000_000 <= f * random.z <= 1_000_000) by (nonlinear_arith)
                requires 0 <= f <= SCALE, -SCALE <= random.z <= SCALE;
        }
        let p = Vector3 {
            x: div_floor_scale(f * random.x),
            y: div_floor_scale(f * random.y),
            z: div_floor_scale(f * random.z),
        };
        let d = m.add(p);
        let nn = Vector3 { x: n.x, y: n.y, z: n.z };
        proof {
            assert(-3_000_000_000_000 <= d.x * nn.x <= 3_000_000_000_000) by (nonlinear_arith)
                requires -3_000_000_000 <= d.x <= 3_000_000_000, -SCALE <= nn.x <= SCALE;
            assert(-3_000_000_000_000 <= d.y * nn.y <= 3_000_000_000_000) by (nonlinear_arith)
                requires -3_000_000_000 <= d.y <= 3_000_000_000, -SCALE <= nn.y <= SCALE;
            assert(-3_000_000_000_000 <= d.z * nn.z <= 3_000_000_000_000) by (nonlinear_arith)
                requires -3_000_000_000 <= d.z <= 3_000_000_000, -SCALE <= nn.z <= SCALE;
        }
        if d.x as i128 * nn.x as i128 + d.y as i128 * nn.y as i128 + d.z as i128 * nn.z as i128 > 0 {
            Some(normalize(d))
        } else {
            None
        }
    }
}

/// Without fuzz, a metal bounces a ray arriving head-on against the unit normal `n`
/// (direction `-t n`, `t >= 1`) exactly back along the normal.
pub proof fn lemma_metal_without_fuzz(v: Vector3, n: Vector3, t: int, random: Vector3)
    requires
        dot_spec(n, n) == SCALE * SCALE,
        unit_range(n),
        1 <= t <= 1000,
        v.x == -t * n.x,
        v.y == -t * n.y,
        v.z == -t * n.z,
    ensures
        metal_direction(unit_spec(reflect_spec(v, n)), 0, random) == n,
        unit_spec(n) == n,
{
    lemma_reflect_head_on(v, n, t);
    assert(0 * random.x == 0 && 0 * random.y == 0 && 0 * random.z == 0);
    lemma_unit_of_scaled(n, 1);
    assert((Vector3 { x: (1 * n.x) as i64, y: (1 * n.y) as i64, z: (1 * n.z) as i64 }) == n);
}

/// Floor division by `SCALE`.
fn div_floor_scale(a: i64) -> (q: i64)
    requires
        -1_000_000 <= a <= 1_000_000,
    ensures
        q == a as int / 1000,
        -1001 <= q <= 1000,
{
    let q: i64 = a / 1000;
    if a % 1000 < 0 {
        q - 1
    } else {
        q
    }
}

pub open spec fn abs_i(a: int) -> int {
    if a < 0 { -a } else { a }
}

proof fn lemma_abs_mul(a: int, b: int, x: int, y: int)
    requires
        abs_i(a) <= x,
        abs_i(b) <= y,
    ensures
        abs_i(a * b) <= x * y,
{
    assert(abs_i(a * b) == abs_i(a) * abs_i(b)) by (nonlinear_arith);
    assert(abs_i(a) * abs_i(b) <= x * y) by (nonlinear_arith)
        requires 0 <= abs_i(a) <= x, 0 <= abs_i(b) <= y;
}

/// For directions and normals with components in `[-SCALE, SCALE]`, the reflection
/// stays within coordinate bounds.
pub proof fn lemma_reflect_unit_in_bounds(v: Vector3, n: Vector3)
    requires
        -SCALE <= v.x <= SCALE && -SCALE <= v.y <= SCALE && -SCALE <= v.z <= SCALE,
        -SCALE <= n.x <= SCALE && -SCALE <= n.y <= SCALE && -SCALE <= n.z <= SCALE,
        dot_spec(n, n) > 0,
    ensures
        in_bounds(reflect_spec(v, n)),
{
    let nn = dot_spec(n, n);
    let (n1, n2, n3) = (n.x as int, n.y as int, n.z as int);
    let m = if abs_i(n1) >= abs_i(n2) && abs_i(n1) >= abs_i(n3) {
        abs_i(n1)
    } else if abs_i(n2) >= abs_i(n3) {
        abs_i(n2)
    } else {
        abs_i(n3)
    };
    assert(n1 * n1 >= 0 && n2 * n2 >= 0 && n3 * n3 >= 0) by (nonlinear_arith);
    assert(m * m <= nn) by {
        assert(abs_i(n1) * abs_i(n1) == n1 * n1) by (nonlinear_arith);
        assert(abs_i(n2) * abs_i(n2) == n2 * n2) by (nonlinear_arith);
        assert(abs_i(n3) * abs_i(n3) == n3 * n3) by (nonlinear_arith);
    }
    lemma_abs_mul(v.x as int, n1, 1000, m);
    lemma_abs_mul(v.y as int, n2, 1000, m);
    lemma_abs_mul(v.z as int, n3, 1000, m);
    let d = dot_spec(v, n);
    assert(abs_i(d) <= 3000 * m);
    let k = 2 * d;
    assert(abs_i(k) <= 6000 * m);
    assert(m >= 0);
    lemma_reflect_axis(v.x as int, n1, k, m, nn);
    lemma_reflect_axis(v.y as int, n2, k, m, nn);
    lemma_reflect_axis(v.z as int, n3, k, m, nn);
}

proof fn lemma_reflect_axis(vc: int, nc: int, k: int, m: int, nn: int)
    requires
        -SCALE <= vc <= SCALE,
        abs_i(nc) <= m,
        abs_i(k) <= 6000 * m,
        m * m <= nn,
        nn > 0,
        m >= 0,
    ensures
        -COORD_BOUND <= vc - k * nc / nn <= COORD_BOUND,
{
    lemma_abs_mul(k, nc, 6000 * m, m);
    assert((6000 * m) * m <= 6000 * nn) by (nonlinear_arith)
        requires m * m <= nn, m >= 0;
    let a = k * nc;
    assert(-6000 * nn <= a <= 6000 * nn);
    vstd::arithmetic::div_mod::lemma_div_is_ordered(a, 6000 * nn, nn);
    vstd::arithmetic::div_mod::lemma_div_is_ordered(-6000 * nn, a, nn);
    vstd::arithmetic::div_mod::lemma_div_multiples_vanish(6000, nn);
    vstd::arithmetic::div_mod::lemma_div_multiples_vanish(-6000, nn);
    assert(6000 * nn == nn * 6000) by (nonlinear_arith);
    assert(-6000 * nn == nn * -6000) by (nonlinear_arith);
}

/// Floor division by a positive divisor.
pub(crate) fn div_floor_pos(a: i128, b: i128) -> (q: i128)
    requires
        -100_000_000_000_000_000 <= a <= 100_000_000_000_000_000,
        0 < b <= 2_000_000_000_000,
    ensures
        q == a as int / b as int,
        -200_000_000_000_000_000 <= q <= 100_000_000_000_000_000,
{
    if a >= 0 {
        proof {
            vstd::arithmetic::div_mod::lemma_div_is_ordered_by_denominator(a as int, 1, b as int);
            vstd::arithmetic::div_mod::lemma_div_pos_is_pos(a as int, b as int);
        }
        a / b
    } else {
        proof {
            crate::hit::lemma_floor_neg(a as int, b as int);
            vstd::arithmetic::div_mod::lemma_div_is_ordered_by_denominator((b - 1 - a) as int, 1, b as int);
            vstd::arithmetic::div_mod::lemma_div_pos_is_pos((b - 1 - a) as int, b as int);
        }
        -((b - 1 - a) / b)
    }
}

/// Mirror-reflects `v` about the (non-zero) normal `n`, normalized to unit length.
pub fn reflect_ray(v: Vector3, n: Vector3) -> (r: Vector3)
    requires
        in_bounds(v),
        -SCALE <= n.x <= SCALE,
        -SCALE <= n.y <= SCALE,
        -SCALE <= n.z <= SCALE,
        dot_spec(n, n) > 0,
        in_bounds(reflect_spec(v, n)),
    ensures
        r == unit_spec(reflect_spec(v, n)),
        unit_range(r),
{
    proof {
        lemma_reflect_bounds(v, n);
    }
    let k: i128 = 2 * v.dot(n);
    let nn: i128 = n.length_squared();
    assert(nn <= 3_000_000) by (nonlinear_arith)
        requires nn == n.x * n.x + n.y * n.y + n.z * n.z, -SCALE <= n.x <= SCALE,
            -SCALE <= n.y <= SCALE, -SCALE <= n.z <= SCALE;
    normalize(
        Vector3 {
            x: (v.x as i128 - div_floor_pos(k * n.x as i128, nn)) as i64,
            y: (v.y as i128 - div_floor_pos(k * n.y as i128, nn)) as i64,
            z: (v.z as i128 - div_floor_pos(k * n.z as i128, nn)) as i64,
        },
    )
}

proof fn lemma_reflect_bounds(v: Vector3, n: Vector3)
    requires
        in_bounds(v),
        -SCALE <= n.x <= SCALE,
        -SCALE <= n.y <= SCALE,
        -SCALE <= n.z <= SCALE,
    ensures
        -10_000_000_000_000 <= dot_spec(v, n) <= 10_000_000_000_000,
        -100_000_000_000_000_000 <= 2 * dot_spec(v, n) * n.x <= 100_000_000_000_000_000,
        -100_000_000_000_000_000 <= 2 * dot_spec(v, n) * n.y <= 100_000_000_000_000_000,
        -100_000_000_000_000_000 <= 2 * dot_spec(v, n) * n.z <= 100_000_000_000_000_000,
{
    assert(-1_000_000_000_000 <= v.x * n.x <= 1_000_000_000_000) by (nonlinear_arith)
        requires -COORD_BOUND <= v.x <= COORD_BOUND, -SCALE <= n.x <= SCALE;
    assert(-1_000_000_000_000 <= v.y * n.y <= 1_000_000_000_000) by (nonlinear_arith)
        requires -COORD_BOUND <= v.y <= COORD_BOUND, -SCALE <= n.y <= SCALE;
    assert(-1_000_000_000_000 <= v.z * n.z <= 1_000_000_000_000) by (nonlinear_arith)
        requires -COORD_BOUND <= v.z <= COORD_BOUND, -SCALE <= n.z <= SCALE;
    let d = dot_spec(v, n);
    assert(-100_000_000_000_000_000 <= 2 * d * n.x <= 100_000_000_000_000_000) by (nonlinear_arith)
        requires -10_000_000_000_000 <= d <= 10_000_000_000_000, -SCALE <= n.x <= SCALE;
    assert(-100_000_000_000_000_000 <= 2 * d * n.y <= 100_000_000_000_000_000) by (nonlinear_arith)
        requires -10_000_000_000_000 <= d <= 10_000_000_000_000, -SCALE <= n.y <= SCALE;
    assert(-100_000_000_000_000_000 <= 2 * d * n.z <= 100_000_000_000_000_000) by (nonlinear_arith)
        requires -10_000_000_000_000 <= d <= 10_000_000_000_000, -SCALE <= n.z <= SCALE;
}

/// A ray arriving head-on against the unit normal `n` (direction `v == -t n`) is
/// reflected exactly back along the normal (direction `t n`).
pub proof fn lemma_reflect_head_on(v: Vector3, n: Vector3, t: int)
    requires
        dot_spec(n, n) == SCALE * SCALE,
        -SCALE <= n.x <= SCALE,
        -SCALE <= n.y <= SCALE,
        -SCALE <= n.z <= SCALE,
        0 <= t <= 1000,
        v.x == -t * n.x,
        v.y == -t * n.y,
        v.z == -t * n.z,
    ensures
        reflect_spec(v, n).x == t * n.x,
        reflect_spec(v, n).y == t * n.y,
        reflect_spec(v, n).z == t * n.z,
        t >= 1 ==> unit_spec(reflect_spec(v, n)) == n,
{
    let (n1, n2, n3) = (n.x as int, n.y as int, n.z as int);
    let s: int = 1_000_000;
    assert(dot_spec(v, n) == -t * (n1 * n1 + n2 * n2 + n3 * n3)) by (nonlinear_arith)
        requires v.x == -t * n1, v.y == -t * n2, v.z == -t * n3, n.x == n1, n.y == n2, n.z == n3;
    let d = dot_spec(v, n);
    assert(d == -t * s);
    lemma_head_on_axis(v.x as int, n1, t, d);
    lemma_head_on_axis(v.y as int, n2, t, d);
    lemma_head_on_axis(v.z as int, n3, t, d);
    if t >= 1 {
        let r = reflect_spec(v, n);
        assert(r == (Vector3 { x: (t * n.x) as i64, y: (t * n.y) as i64, z: (t * n.z) as i64 }));
        lemma_unit_of_scaled(n, t);
    }
}

proof fn lemma_head_on_axis(vc: int, nc: int, t: int, d: int)
    requires
        -SCALE <= nc <= SCALE,
        0 <= t <= 1000,
        vc == -t * nc,
        d == -t * 1_000_000,
    ensures
        vc - (2 * d * nc) / 1_000_000 == t * nc,
        -1_000_000 <= t * nc <= 1_000_000,
{
    assert(2 * d * nc == 1_000_000 * (-2 * t * nc)) by (nonlinear_arith)
        requires d == -t * 1_000_000;
    vstd::arithmetic::div_mod::lemma_div_multiples_vanish(-2 * t * nc, 1_000_000);
    assert((2 * d * nc) / 1_000_000 == -2 * t * nc);
    assert(-1_000_000 <= t * nc <= 1_000_000) by (nonlinear_arith)
        requires 0 <= t <= 1000, -SCALE <= nc <= SCALE;
    let q = (2 * d * nc) / 1_000_000;
    assert(vc - q == t * nc) by (nonlinear_arith)
        requires vc == -t * nc, q == -2 * t * nc;
}

} // verus!
