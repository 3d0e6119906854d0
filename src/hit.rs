use vstd::prelude::*;
use crate::aabb::Aabb;
use crate::scene::Sphere;
use crate::vector::{SCALE, Vector3};

verus! {

/// Bound on the coordinates of ray origins, sphere centers and radii.
pub const POS_BOUND: i64 = 4_000_000;

/// Bound on the components of a ray direction (fixed-point units per step).
pub const DIR_BOUND: i64 = 4_000;

/// Bound on the ray parameter (number of steps along the direction).
pub const T_BOUND: i64 = 4_000_000;

/// A ray: it stands at `origin + t * direction` at step `t`; `time` is the instant
/// it was cast at (for moving spheres).
#[derive(Clone, Copy, Debug, PartialEq, Eq, Structural)]
pub struct Ray {
    pub origin: Vector3,
    pub direction: Vector3,
    pub time: i64,
}

pub open spec fn pos_ok(v: Vector3) -> bool {
    -POS_BOUND <= v.x <= POS_BOUND && -POS_BOUND <= v.y <= POS_BOUND && -POS_BOUND <= v.z
        <= POS_BOUND
}

impl Ray {
    pub open spec fn valid(self) -> bool {
        &&& pos_ok(self.origin)
        &&& -DIR_BOUND <= self.direction.x <= DIR_BOUND
        &&& -DIR_BOUND <= self.direction.y <= DIR_BOUND
        &&& -DIR_BOUND <= self.direction.z <= DIR_BOUND
    }

    /// The point reached at step `t`, in exact integers.
    pub open spec fn at(self, t: int) -> (int, int, int) {
        (
            self.origin.x + t * self.direction.x,
            self.origin.y + t * self.direction.y,
            self.origin.z + t * self.direction.z,
        )
    }
}

impl Sphere {
    /// A sphere the hit test accepts: bounded coordinates, non-negative radius, and a
    /// motion interval of positive length.
    pub open spec fn valid(self) -> bool {
        &&& pos_ok(self.center0)
        &&& pos_ok(self.center1)
        &&& 0 <= self.radius <= POS_BOUND
        &&& self.time0 < self.time1
        &&& 0 <= self.time0
        &&& self.time1 <= 1_000_000
    }

    /// The ray time clamped to the sphere's motion interval.
    pub open spec fn clamp_time(self, time: int) -> int {
        if time < self.time0 {
            self.time0 as int
        } else if time > self.time1 {
            self.time1 as int
        } else {
            time
        }
    }

    /// The center at `time`: linear from `center0` to `center1`, rounded down.
    pub open spec fn center_at(self, time: int) -> (int, int, int) {
        let a = self.clamp_time(time) - self.time0;
        let b = self.time1 - self.time0;
        (
            self.center0.x + (self.center1.x - self.center0.x) * a / b,
            self.center0.y + (self.center1.y - self.center0.y) * a / b,
            self.center0.z + (self.center1.z - self.center0.z) * a / b,
        )
    }

    /// Squared distance from the ray's point at step `t` to the center, less the
    /// squared radius: at most zero exactly when the point is in the closed ball.
    pub open spec fn excess(self, ray: Ray, t: int) -> int {
        let p = ray.at(t);
        let c = self.center_at(ray.time as int);
        (p.0 - c.0) * (p.0 - c.0) + (p.1 - c.1) * (p.1 - c.1) + (p.2 - c.2) * (p.2 - c.2) - self.radius
            * self.radius
    }

    /// Rate of change of the squared distance at step `t`, halved: the direction dotted
    /// with the offset from the center.
    pub open spec fn slope(self, ray: Ray, t: int) -> int {
        let p = ray.at(t);
        let c = self.center_at(ray.time as int);
        ray.direction.x * (p.0 - c.0) + ray.direction.y * (p.1 - c.1) + ray.direction.z * (p.2
            - c.2)
    }

    /// Once this holds it holds for every later step: the ray is in the ball, or moving
    /// away from the center.
    pub open spec fn settled(self, ray: Ray, t: int) -> bool {
        self.inside_at(ray, t) || self.slope(ray, t) >= 0
    }

    pub open spec fn inside_at(self, ray: Ray, t: int) -> bool {
        self.excess(ray, t) <= 0
    }

    /// `t` is the first step in `[t_min, t_max]` at which the ray is in the ball.
    pub open spec fn first_hit(self, ray: Ray, t_min: int, t_max: int, t: int) -> bool {
        &&& t_min <= t <= t_max
        &&& self.inside_at(ray, t)
        &&& forall|u: int| t_min <= u < t ==> !#[trigger] self.inside_at(ray, u)
    }

    pub open spec fn misses(self, ray: Ray, t_min: int, t_max: int) -> bool {
        forall|u: int| t_min <= u <= t_max ==> !#[trigger] self.inside_at(ray, u)
    }

    /// The box enclosing the sphere over its whole motion interval.
    pub open spec fn box_spec(self) -> Aabb {
        Aabb::union_spec(
            Aabb {
                minimum: Vector3 {
                    x: (self.center0.x - self.radius) as i64,
                    y: (self.center0.y - self.radius) as i64,
                    z: (self.center0.z - self.radius) as i64,
                },
                maximum: Vector3 {
                    x: (self.center0.x + self.radius) as i64,
                    y: (self.center0.y + self.radius) as i64,
                    z: (self.center0.z + self.radius) as i64,
                },
            },
            Aabb {
                minimum: Vector3 {
                    x: (self.center1.x - self.radius) as i64,
                    y: (self.center1.y - self.radius) as i64,
                    z: (self.center1.z - self.radius) as i64,
                },
                maximum: Vector3 {
                    x: (self.center1.x + self.radius) as i64,
                    y: (self.center1.y + self.radius) as i64,
                    z: (self.center1.z + self.radius) as i64,
                },
            },
        )
    }

    /// The sphere's bounding box over its motion interval.
    pub fn bounding_box(&self) -> (r: Aabb)
        requires
            self.valid(),
        ensures
            r == self.box_spec(),
            r.valid(),
    {
        let a = Aabb {
            minimum: Vector3 {
                x: self.center0.x - self.radius,
                y: self.center0.y - self.radius,
                z: self.center0.z - self.radius,
            },
            maximum: Vector3 {
                x: self.center0.x + self.radius,
                y: self.center0.y + self.radius,
                z: self.center0.z + self.radius,
            },
        };
        let b = Aabb {
            minimum: Vector3 {
                x: self.center1.x - self.radius,
                y: self.center1.y - self.radius,
                z: self.center1.z - self.radius,
            },
            maximum: Vector3 {
                x: self.center1.x + self.radius,
                y: self.center1.y + self.radius,
                z: self.center1.z + self.radius,
            },
        };
        Aabb::union(&a, &b)
    }
}


impl Ray {
    /// The point reached at (signed) step `t`.
    pub fn at_distance(&self, t: i64) -> (p: Vector3)
        requires
            self.valid(),
            -T_BOUND <= t <= T_BOUND,
        ensures
            p.x == self.at(t as int).0,
            p.y == self.at(t as int).1,
            p.z == self.at(t as int).2,
            -20_000_000_000 <= p.x <= 20_000_000_000,
            -20_000_000_000 <= p.y <= 20_000_000_000,
            -20_000_000_000 <= p.z <= 20_000_000_000,
    {
        proof {
            assert(-16_000_000_000 <= t * self.direction.x <= 16_000_000_000) by (nonlinear_arith)
                requires -T_BOUND <= t <= T_BOUND, -DIR_BOUND <= self.direction.x <= DIR_BOUND;
            assert(-16_000_000_000 <= t * self.direction.y <= 16_000_000_000) by (nonlinear_arith)
                requires -T_BOUND <= t <= T_BOUND, -DIR_BOUND <= self.direction.y <= DIR_BOUND;
            assert(-16_000_000_000 <= t * self.direction.z <= 16_000_000_000) by (nonlinear_arith)
                requires -T_BOUND <= t <= T_BOUND, -DIR_BOUND <= self.direction.z <= DIR_BOUND;
        }
        Vector3 {
            x: self.origin.x + t * self.direction.x,
            y: self.origin.y + t * self.direction.y,
            z: self.origin.z + t * self.direction.z,
        }
    }
}

/// One component of the outward unit normal (fixed point): the offset from the center
/// scaled to `SCALE` per radius, rounded down and kept within `[-SCALE, SCALE]`.
pub open spec fn normal_axis(offset: int, radius: int) -> int {
    let q = offset * SCALE / radius;
    if q < -SCALE {
        -SCALE as int
    } else if q > SCALE {
        SCALE as int
    } else {
        q
    }
}

fn normal_axis_of(p: i64, c: i64, radius: i64) -> (r: i64)
    requires
        -20_000_000_000 <= p <= 20_000_000_000,
        -POS_BOUND <= c <= POS_BOUND,
        0 < radius <= POS_BOUND,
    ensures
        r == normal_axis(p - c, radius as int),
{
    let off: i128 = p as i128 - c as i128;
    proof {
        assert(-30_000_000_000_000 <= off * 1000 <= 30_000_000_000_000) by (nonlinear_arith)
            requires -30_000_000_000 <= off <= 30_000_000_000;
    }
    let q: i128 = crate::material::div_floor_pos(off * 1000, radius as i128);
    if q < -1000 {
        -SCALE
    } else if q > 1000 {
        SCALE
    } else {
        q as i64
    }
}

impl Sphere {
    /// The unit normal (fixed point) at the ray's point at step `t`, turned against the
    /// ray, and whether the ray meets the outer (front) face there.
    pub open spec fn surface_normal_spec(self, ray: Ray, t: int) -> (Vector3, bool) {
        let p = ray.at(t);
        let c = self.center_at(ray.time as int);
        let r = self.radius as int;
        let o = Vector3 {
            x: normal_axis(p.0 - c.0, r) as i64,
            y: normal_axis(p.1 - c.1, r) as i64,
            z: normal_axis(p.2 - c.2, r) as i64,
        };
        let front = ray.direction.x * o.x + ray.direction.y * o.y + ray.direction.z * o.z < 0;
        if front {
            (o, true)
        } else {
            (Vector3 { x: -o.x as i64, y: -o.y as i64, z: -o.z as i64 }, false)
        }
    }

    /// The surface normal at the ray's point at step `t`, oriented against the ray.
    pub fn surface_normal(&self, ray: &Ray, t: i64) -> (r: (Vector3, bool))
        requires
            self.valid(),
            self.radius > 0,
            ray.valid(),
            0 <= t <= T_BOUND,
        ensures
            r == self.surface_normal_spec(*ray, t as int),
    {
        let p = ray.at_distance(t);
        let c = self.center_at_time(ray.time);
        let o = Vector3 {
            x: normal_axis_of(p.x, c.0, self.radius),
            y: normal_axis_of(p.y, c.1, self.radius),
            z: normal_axis_of(p.z, c.2, self.radius),
        };
        proof {
            assert(-4_000_000 <= ray.direction.x * o.x <= 4_000_000) by (nonlinear_arith)
                requires -DIR_BOUND <= ray.direction.x <= DIR_BOUND, -1000 <= o.x <= 1000;
            assert(-4_000_000 <= ray.direction.y * o.y <= 4_000_000) by (nonlinear_arith)
                requires -DIR_BOUND <= ray.direction.y <= DIR_BOUND, -1000 <= o.y <= 1000;
            assert(-4_000_000 <= ray.direction.z * o.z <= 4_000_000) by (nonlinear_arith)
                requires -DIR_BOUND <= ray.direction.z <= DIR_BOUND, -1000 <= o.z <= 1000;
        }
        let front = ray.direction.x * o.x + ray.direction.y * o.y + ray.direction.z * o.z < 0;
        if front {
            (o, true)
        } else {
            (Vector3 { x: -o.x, y: -o.y, z: -o.z }, false)
        }
    }

    /// The center at the given ray time (clamped to the motion interval).
    pub fn center_at_time(&self, time: i64) -> (c: (i64, i64, i64))
        requires
            self.valid(),
        ensures
            c.0 == self.center_at(time as int).0,
            c.1 == self.center_at(time as int).1,
            c.2 == self.center_at(time as int).2,
            pos_ok(Vector3 { x: c.0, y: c.1, z: c.2 }),
    {
        let tc: i64 = if time < self.time0 {
            self.time0
        } else if time > self.time1 {
            self.time1
        } else {
            time
        };
        let a: i64 = tc - self.time0;
        let b: i64 = self.time1 - self.time0;
        (
            center_axis(self.center0.x, self.center1.x, a, b),
            center_axis(self.center0.y, self.center1.y, a, b),
            center_axis(self.center0.z, self.center1.z, a, b),
        )
    }

    /// The first step in `[t_min, t_max]` at which the ray lies in the closed ball, if
    /// any: the nearest intersection.
    pub fn hit(&self, ray: &Ray, t_min: i64, t_max: i64) -> (r: Option<i64>)
        requires
            self.valid(),
            ray.valid(),
            0 <= t_min,
            t_max <= T_BOUND,
        ensures
            r matches Some(t) ==> self.first_hit(*ray, t_min as int, t_max as int, t as int),
            r is None ==> self.misses(*ray, t_min as int, t_max as int),
    {
        if t_min > t_max {
            return None;
        }
        let c = self.center_at_time(ray.time);
        let (f_end, g_end) = excess_and_slope(ray, c, self.radius, t_max);
        if !(f_end <= 0 || g_end >= 0) {
            proof {
                assert forall|u: int| t_min <= u <= t_max implies !#[trigger] self.inside_at(*ray, u) by {
                    if self.inside_at(*ray, u) {
                        lemma_settled_monotone(*self, *ray, u, t_max as int);
                    }
                }
            }
            return None;
        }
        let mut lo: i64 = t_min - 1;
        let mut hi: i64 = t_max;
        while lo + 1 < hi
            invariant
                t_min - 1 <= lo < hi <= t_max,
                0 <= t_min,
                t_max <= T_BOUND,
                self.valid(),
                ray.valid(),
                c.0 == self.center_at(ray.time as int).0,
                c.1 == self.center_at(ray.time as int).1,
                c.2 == self.center_at(ray.time as int).2,
                pos_ok(Vector3 { x: c.0, y: c.1, z: c.2 }),
                self.settled(*ray, hi as int),
                forall|u: int| t_min <= u <= lo ==> !#[trigger] self.settled(*ray, u),
            decreases hi - lo,
        {
            let mid: i64 = lo + (hi - lo) / 2;
            let (f, g) = excess_and_slope(ray, c, self.radius, mid);
            if f <= 0 || g >= 0 {
                hi = mid;
            } else {
                proof {
                    assert forall|u: int| t_min <= u <= mid implies !#[trigger] self.settled(*ray, u) by {
                        if self.settled(*ray, u) {
                            lemma_settled_monotone(*self, *ray, u, mid as int);
                        }
                    }
                }
                lo = mid;
            }
        }
        let (f, g) = excess_and_slope(ray, c, self.radius, hi);
        if f <= 0 {
            proof {
                assert forall|u: int| t_min <= u < hi implies !#[trigger] self.inside_at(*ray, u) by {
                    assert(!self.settled(*ray, u));
                }
            }
            Some(hi)
        } else {
            proof {
                assert forall|u: int| t_min <= u <= t_max implies !#[trigger] self.inside_at(*ray, u) by {
                    if u >= hi {
                        lemma_receding(*self, *ray, hi as int, u);
                    } else {
                        assert(!self.settled(*ray, u));
                    }
                }
            }
            None
        }
    }
}

pub open spec fn holds_int_point(b: Aabb, p: (int, int, int)) -> bool {
    &&& b.minimum.x <= p.0 <= b.maximum.x
    &&& b.minimum.y <= p.1 <= b.maximum.y
    &&& b.minimum.z <= p.2 <= b.maximum.z
}

proof fn lemma_abs_from_square(e: int, r: int)
    requires
        0 <= r,
        e * e <= r * r,
    ensures
        -r <= e <= r,
{
    if e > r {
        assert(e * e > r * r) by (nonlinear_arith)
            requires e > r, r >= 0;
    }
    if e < -r {
        assert(e * e > r * r) by (nonlinear_arith)
            requires e < -r, r >= 0;
    }
}

proof fn lemma_axis_in_box(c0: int, c1: int, a: int, b: int, r: int, e: int)
    requires
        -POS_BOUND <= c0 <= POS_BOUND,
        -POS_BOUND <= c1 <= POS_BOUND,
        0 <= a <= b <= 1_000_000,
        0 < b,
        -r <= e <= r,
    ensures
        ({
            let c = c0 + (c1 - c0) * a / b;
            let lo = if c0 <= c1 { c0 - r } else { c1 - r };
            let hi = if c0 >= c1 { c0 + r } else { c1 + r };
            lo <= c + e <= hi
        }),
{
    lemma_center_axis(c1 - c0, a, b);
}

/// A point of the ray that lies in the ball lies in the sphere's bounding box.
pub proof fn lemma_ball_in_box(s: Sphere, ray: Ray, t: int)
    requires
        s.valid(),
        s.inside_at(ray, t),
    ensures
        holds_int_point(s.box_spec(), ray.at(t)),
{
    let p = ray.at(t);
    let c = s.center_at(ray.time as int);
    let (ex, ey, ez) = (p.0 - c.0, p.1 - c.1, p.2 - c.2);
    let r = s.radius as int;
    assert(ex * ex >= 0 && ey * ey >= 0 && ez * ez >= 0) by (nonlinear_arith);
    lemma_abs_from_square(ex, r);
    lemma_abs_from_square(ey, r);
    lemma_abs_from_square(ez, r);
    let a = s.clamp_time(ray.time as int) - s.time0;
    let b = s.time1 - s.time0;
    lemma_axis_in_box(s.center0.x as int, s.center1.x as int, a, b, r, ex);
    lemma_axis_in_box(s.center0.y as int, s.center1.y as int, a, b, r, ey);
    lemma_axis_in_box(s.center0.z as int, s.center1.z as int, a, b, r, ez);
}

/// A reported hit lies on the sphere up to one step: the point is in the closed ball,
/// and unless the hit is at `t_min`, the point one step earlier is outside it.
pub proof fn lemma_hit_on_surface(s: Sphere, ray: Ray, t_min: int, t_max: int, t: int)
    requires
        s.first_hit(ray, t_min, t_max, t),
    ensures
        s.excess(ray, t) <= 0,
        t > t_min ==> s.excess(ray, t - 1) > 0,
{
    if t > t_min {
        assert(!s.inside_at(ray, t - 1));
    }
}

proof fn lemma_step_axis(o: int, d: int, c: int, t: int, k: int)
    ensures
        (o + (t + k) * d - c) * (o + (t + k) * d - c) == (o + t * d - c) * (o + t * d - c) + 2 * k
            * (d * (o + t * d - c)) + k * k * (d * d),
        d * (o + (t + k) * d - c) == d * (o + t * d - c) + k * (d * d),
        d * d >= 0,
{
    assert((o + (t + k) * d - c) * (o + (t + k) * d - c) == (o + t * d - c) * (o + t * d - c) + 2
        * k * (d * (o + t * d - c)) + k * k * (d * d)) by (nonlinear_arith);
    assert(d * (o + (t + k) * d - c) == d * (o + t * d - c) + k * (d * d)) by (nonlinear_arith);
    assert(d * d >= 0) by (nonlinear_arith);
}

/// Moving `k` steps on changes the excess by `2 k slope + k^2 |d|^2` and the slope by
/// `k |d|^2`.
proof fn lemma_step(s: Sphere, ray: Ray, t: int, k: int)
    ensures
        ({
            let dd = ray.direction.x * ray.direction.x + ray.direction.y * ray.direction.y
                + ray.direction.z * ray.direction.z;
            &&& dd >= 0
            &&& s.excess(ray, t + k) == s.excess(ray, t) + 2 * k * s.slope(ray, t) + k * k * dd
            &&& s.slope(ray, t + k) == s.slope(ray, t) + k * dd
        }),
{
    let c = s.center_at(ray.time as int);
    lemma_step_axis(ray.origin.x as int, ray.direction.x as int, c.0, t, k);
    lemma_step_axis(ray.origin.y as int, ray.direction.y as int, c.1, t, k);
    lemma_step_axis(ray.origin.z as int, ray.direction.z as int, c.2, t, k);
    let dd = ray.direction.x * ray.direction.x + ray.direction.y * ray.direction.y
        + ray.direction.z * ray.direction.z;
    let (dx, dy, dz) = (ray.direction.x as int, ray.direction.y as int, ray.direction.z as int);
    let (ex, ey, ez) = (ray.at(t).0 - c.0, ray.at(t).1 - c.1, ray.at(t).2 - c.2);
    let g = s.slope(ray, t);
    assert(g == dx * ex + dy * ey + dz * ez);
    assert(2 * k * g == 2 * k * (dx * ex) + 2 * k * (dy * ey) + 2 * k * (dz * ez)) by (nonlinear_arith)
        requires g == dx * ex + dy * ey + dz * ez;
    assert(k * k * dd == k * k * (dx * dx) + k * k * (dy * dy) + k * k * (dz * dz)) by (nonlinear_arith)
        requires dd == dx * dx + dy * dy + dz * dz;
    assert(k * dd == k * (dx * dx) + k * (dy * dy) + k * (dz * dz)) by (nonlinear_arith)
        requires dd == dx * dx + dy * dy + dz * dz;
}

/// `settled` is monotone along the ray.
proof fn lemma_settled_monotone(s: Sphere, ray: Ray, t: int, u: int)
    requires
        t <= u,
        s.settled(ray, t),
    ensures
        s.settled(ray, u),
{
    let k = u - t;
    lemma_step(s, ray, t, k);
    let dd = ray.direction.x * ray.direction.x + ray.direction.y * ray.direction.y
        + ray.direction.z * ray.direction.z;
    let g = s.slope(ray, t);
    let g2 = s.slope(ray, u);
    assert(k * dd >= 0) by (nonlinear_arith)
        requires k >= 0, dd >= 0;
    if g < 0 && g2 < 0 {
        assert(2 * k * g + k * k * dd == k * (g + g2)) by (nonlinear_arith)
            requires g2 == g + k * dd;
        assert(k * (g + g2) <= 0) by (nonlinear_arith)
            requires k >= 0, g + g2 < 0;
    }
}

/// Once the ray moves away from the center, the excess never decreases.
proof fn lemma_receding(s: Sphere, ray: Ray, t: int, u: int)
    requires
        t <= u,
        s.slope(ray, t) >= 0,
    ensures
        s.excess(ray, u) >= s.excess(ray, t),
{
    let k = u - t;
    lemma_step(s, ray, t, k);
    let dd = ray.direction.x * ray.direction.x + ray.direction.y * ray.direction.y
        + ray.direction.z * ray.direction.z;
    let g = s.slope(ray, t);
    assert(2 * k * g + k * k * dd >= 0) by (nonlinear_arith)
        requires k >= 0, dd >= 0, g >= 0;
}

/// Excess and slope at step `t` for a ray and a center, in exact integers.
fn excess_and_slope(ray: &Ray, c: (i64, i64, i64), r: i64, t: i64) -> (res: (i128, i128))
    requires
        ray.valid(),
        -POS_BOUND <= c.0 <= POS_BOUND,
        -POS_BOUND <= c.1 <= POS_BOUND,
        -POS_BOUND <= c.2 <= POS_BOUND,
        0 <= r <= POS_BOUND,
        -1 <= t <= T_BOUND,
    ensures
        ({
            let p = ray.at(t as int);
            &&& res.0 == (p.0 - c.0) * (p.0 - c.0) + (p.1 - c.1) * (p.1 - c.1) + (p.2 - c.2) * (
            p.2 - c.2) - r * r
            &&& res.1 == ray.direction.x * (p.0 - c.0) + ray.direction.y * (p.1 - c.1)
                + ray.direction.z * (p.2 - c.2)
        }),
{
    let ex = offset_axis(ray.origin.x, ray.direction.x, c.0, t);
    let ey = offset_axis(ray.origin.y, ray.direction.y, c.1, t);
    let ez = offset_axis(ray.origin.z, ray.direction.z, c.2, t);
    proof {
        lemma_sq_bound(ex as int);
        lemma_sq_bound(ey as int);
        lemma_sq_bound(ez as int);
        lemma_sq_bound(r as int);
        lemma_dir_bound(ray.direction.x as int, ex as int);
        lemma_dir_bound(ray.direction.y as int, ey as int);
        lemma_dir_bound(ray.direction.z as int, ez as int);
    }
    let f: i128 = ex * ex + ey * ey + ez * ez - (r as i128) * (r as i128);
    let g: i128 = (ray.direction.x as i128) * ex + (ray.direction.y as i128) * ey
        + (ray.direction.z as i128) * ez;
    (f, g)
}

proof fn lemma_sq_bound(e: int)
    requires
        -20_000_000_000 <= e <= 20_000_000_000,
    ensures
        0 <= e * e <= 400_000_000_000_000_000_000,
{
    assert(0 <= e * e <= 400_000_000_000_000_000_000) by (nonlinear_arith)
        requires -20_000_000_000 <= e <= 20_000_000_000;
}

proof fn lemma_dir_bound(d: int, e: int)
    requires
        -DIR_BOUND <= d <= DIR_BOUND,
        -20_000_000_000 <= e <= 20_000_000_000,
    ensures
        -80_000_000_000_000 <= d * e <= 80_000_000_000_000,
{
    assert(-80_000_000_000_000 <= d * e <= 80_000_000_000_000) by (nonlinear_arith)
        requires -DIR_BOUND <= d <= DIR_BOUND, -20_000_000_000 <= e <= 20_000_000_000;
}

fn offset_axis(o: i64, d: i64, c: i64, t: i64) -> (e: i128)
    requires
        -POS_BOUND <= o <= POS_BOUND,
        -DIR_BOUND <= d <= DIR_BOUND,
        -POS_BOUND <= c <= POS_BOUND,
        -1 <= t <= T_BOUND,
    ensures
        e == o + t * d - c,
        -20_000_000_000 <= e <= 20_000_000_000,
{
    proof {
        assert(-16_000_000_000 <= t * d <= 16_000_000_000) by (nonlinear_arith)
            requires -1 <= t <= T_BOUND, -DIR_BOUND <= d <= DIR_BOUND;
    }
    o as i128 + (t as i128) * (d as i128) - c as i128
}

/// One coordinate of a moving center: `c0 + (c1 - c0) * a / b`, rounded down, for
/// `0 <= a <= b`. It lies between `c0` and `c1`.
fn center_axis(c0: i64, c1: i64, a: i64, b: i64) -> (r: i64)
    requires
        -POS_BOUND <= c0 <= POS_BOUND,
        -POS_BOUND <= c1 <= POS_BOUND,
        0 <= a <= b <= 1_000_000,
        0 < b,
    ensures
        r == c0 + (c1 - c0) * a / (b as int),
        c0 <= c1 ==> c0 <= r <= c1,
        c1 < c0 ==> c1 <= r <= c0,
{
    let d: i64 = c1 - c0;
    proof {
        lemma_center_axis(d as int, a as int, b as int);
    }
    let n: i64 = d * a;
    if n >= 0 {
        c0 + n / b
    } else {
        proof {
            lemma_floor_neg(n as int, b as int);
        }
        c0 - (b - 1 - n) / b
    }
}

pub(crate) proof fn lemma_floor_neg(n: int, b: int)
    requires
        n < 0,
        b > 0,
    ensures
        -((b - 1 - n) / b) == n / b,
{
    let q = n / b;
    let r = n % b;
    vstd::arithmetic::div_mod::lemma_fundamental_div_mod(n, b);
    assert(b - 1 - n == b * (-q) + (b - 1 - r)) by (nonlinear_arith)
        requires n == b * q + r;
    vstd::arithmetic::div_mod::lemma_fundamental_div_mod_converse(b - 1 - n, b, -q, b - 1 - r);
}

proof fn lemma_center_axis(d: int, a: int, b: int)
    requires
        -2 * POS_BOUND <= d <= 2 * POS_BOUND,
        0 <= a <= b <= 1_000_000,
        0 < b,
    ensures
        -8_000_000_000_000 <= d * a <= 8_000_000_000_000,
        d >= 0 ==> 0 <= d * a / b <= d,
        d < 0 ==> d <= d * a / b <= 0,
{
    assert(-8_000_000_000_000 <= d * a <= 8_000_000_000_000) by (nonlinear_arith)
        requires -2 * POS_BOUND <= d <= 2 * POS_BOUND, 0 <= a <= 1_000_000;
    if d >= 0 {
        assert(0 <= d * a <= d * b) by (nonlinear_arith)
            requires d >= 0, 0 <= a <= b;
        vstd::arithmetic::div_mod::lemma_div_is_ordered(d * a, d * b, b);
        vstd::arithmetic::div_mod::lemma_div_multiples_vanish(d, b);
        assert(d * b == b * d) by (nonlinear_arith);
        vstd::arithmetic::div_mod::lemma_div_pos_is_pos(d * a, b);
    } else {
        assert(d * b <= d * a <= 0) by (nonlinear_arith)
            requires d < 0, 0 <= a <= b;
        vstd::arithmetic::div_mod::lemma_div_is_ordered(d * b, d * a, b);
        vstd::arithmetic::div_mod::lemma_div_is_ordered(d * a, 0, b);
        vstd::arithmetic::div_mod::lemma_div_multiples_vanish(d, b);
        assert(d * b == b * d) by (nonlinear_arith);
    }
}

} // verus!
