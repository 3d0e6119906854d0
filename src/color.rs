use vstd::prelude::*;
use crate::vector::SCALE;

verus! {

/// A linear RGB color in fixed point: `SCALE` stands for full intensity.
#[derive(Clone, Copy, Debug, PartialEq, Eq, Structural)]
pub struct Color {
    pub r: i64,
    pub g: i64,
    pub b: i64,
}

/// An 8-bit output pixel.
#[derive(Clone, Copy, Debug, PartialEq, Eq, Structural)]
pub struct Rgb8 {
    pub r: u8,
    pub g: u8,
    pub b: u8,
}

pub open spec fn channel_ok(v: i64) -> bool {
    0 <= v <= SCALE
}

pub open spec fn rgb(r: int, g: int, b: int) -> Color {
    Color { r: r as i64, g: g as i64, b: b as i64 }
}

/// The product of two fixed-point channels, rounded down.
pub open spec fn mul_channel(a: i64, b: i64) -> int {
    (a * b) / (SCALE as int)
}

/// Linear blend between two channels with weight `t` (out of `SCALE`) on `b`.
pub open spec fn lerp_channel(a: int, b: int, t: int) -> int {
    ((SCALE - t) * a + t * b) / (SCALE as int)
}

/// The blend factor of the sky gradient for the vertical component `y` of a unit direction.
pub open spec fn sky_blend(y: int) -> int {
    (y + SCALE) / 2
}

/// Background color for a ray whose unit direction has vertical component `y`:
/// white at the bottom, sky blue at the top.
pub open spec fn background_spec(y: int) -> Color {
    rgb(
        lerp_channel(1000, 500, sky_blend(y)),
        lerp_channel(1000, 700, sky_blend(y)),
        lerp_channel(1000, 1000, sky_blend(y)),
    )
}

impl Color {
    pub open spec fn valid(self) -> bool {
        channel_ok(self.r) && channel_ok(self.g) && channel_ok(self.b)
    }

    pub fn black() -> (c: Color)
        ensures
            c == rgb(0, 0, 0),
    {
        Color { r: 0, g: 0, b: 0 }
    }

    pub fn white() -> (c: Color)
        ensures
            c == rgb(1000, 1000, 1000),
    {
        Color { r: 1000, g: 1000, b: 1000 }
    }

    pub fn sky() -> (c: Color)
        ensures
            c == rgb(500, 700, 1000),
    {
        Color { r: 500, g: 700, b: 1000 }
    }

    /// Componentwise product (attenuation), rounded down.
    pub fn mul(self, rhs: Color) -> (c: Color)
        requires
            self.valid(),
            rhs.valid(),
        ensures
            c == rgb(
                mul_channel(self.r, rhs.r),
                mul_channel(self.g, rhs.g),
                mul_channel(self.b, rhs.b),
            ),
            c.valid(),
    {
        proof {
            lemma_mul_channel(self.r, rhs.r);
            lemma_mul_channel(self.g, rhs.g);
            lemma_mul_channel(self.b, rhs.b);
        }
        Color { r: self.r * rhs.r / SCALE, g: self.g * rhs.g / SCALE, b: self.b * rhs.b / SCALE }
    }
}

proof fn lemma_mul_channel(a: i64, b: i64)
    requires
        channel_ok(a),
        channel_ok(b),
    ensures
        0 <= a * b <= SCALE * SCALE,
        channel_ok(mul_channel(a, b) as i64),
        0 <= mul_channel(a, b) <= SCALE,
{
    assert(0 <= a * b <= SCALE * SCALE) by (nonlinear_arith)
        requires
            0 <= a <= SCALE,
            0 <= b <= SCALE,
    ;
}

proof fn lemma_lerp_bounds(a: int, b: int, t: int)
    requires
        0 <= a <= SCALE,
        0 <= b <= SCALE,
        0 <= t <= SCALE,
    ensures
        0 <= (SCALE - t) * a + t * b <= SCALE * SCALE,
        0 <= lerp_channel(a, b, t) <= SCALE,
{
    assert(0 <= (SCALE - t) * a + t * b <= SCALE * SCALE) by (nonlinear_arith)
        requires
            0 <= a <= SCALE,
            0 <= b <= SCALE,
            0 <= t <= SCALE,
    ;
}

/// The sky gradient for the vertical component `y` of a unit direction.
pub fn background(y: i64) -> (c: Color)
    requires
        -SCALE <= y <= SCALE,
    ensures
        c == background_spec(y as int),
        c.valid(),
{
    let t: i64 = (y + SCALE) / 2;
    proof {
        lemma_lerp_bounds(1000, 500, t as int);
        lemma_lerp_bounds(1000, 700, t as int);
        lemma_lerp_bounds(1000, 1000, t as int);
    }
    Color {
        r: ((SCALE - t) * 1000 + t * 500) / SCALE,
        g: ((SCALE - t) * 1000 + t * 700) / SCALE,
        b: ((SCALE - t) * 1000 + t * 1000) / SCALE,
    }
}

pub proof fn lemma_background_valid(y: int)
    requires
        -SCALE <= y <= SCALE,
    ensures
        background_spec(y).valid(),
{
    lemma_lerp_bounds(1000, 500, sky_blend(y));
    lemma_lerp_bounds(1000, 700, sky_blend(y));
    lemma_lerp_bounds(1000, 1000, sky_blend(y));
}

pub proof fn lemma_mul_valid(a: Color, b: Color)
    requires
        a.valid(),
        b.valid(),
    ensures
        rgb(mul_channel(a.r, b.r), mul_channel(a.g, b.g), mul_channel(a.b, b.b)).valid(),
{
    lemma_mul_channel(a.r, b.r);
    lemma_mul_channel(a.g, b.g);
    lemma_mul_channel(a.b, b.b);
}

/// A direction pointing straight up sees exactly the sky color; straight down, exactly white.
pub proof fn lemma_background_endpoints()
    ensures
        background_spec(SCALE as int) == rgb(500, 700, 1000),
        background_spec(-SCALE) == rgb(1000, 1000, 1000),
{
}

} // verus!
