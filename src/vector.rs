use vstd::prelude::*;

verus! {

/// Fixed-point scale: the integer `SCALE` stands for the real number 1.0.
pub const SCALE: i64 = 1000;

/// Bound on the magnitude of any coordinate the geometry works with.
pub const COORD_BOUND: i64 = 1_000_000_000;

/// A vector in 3-space, in fixed-point units (`SCALE` per world unit).
#[derive(Clone, Copy, Debug, PartialEq, Eq, Structural)]
pub struct Vector3 {
    pub x: i64,
    pub y: i64,
    pub z: i64,
}

pub type Point = Vector3;

pub open spec fn in_bounds(v: Vector3) -> bool {
    -COORD_BOUND <= v.x <= COORD_BOUND && -COORD_BOUND <= v.y <= COORD_BOUND && -COORD_BOUND
        <= v.z <= COORD_BOUND
}

/// Every component lies in `[-SCALE, SCALE]`, as for a unit vector.
pub open spec fn unit_range(v: Vector3) -> bool {
    -SCALE <= v.x <= SCALE && -SCALE <= v.y <= SCALE && -SCALE <= v.z <= SCALE
}

pub open spec fn dot_spec(a: Vector3, b: Vector3) -> int {
    a.x * b.x + a.y * b.y + a.z * b.z
}

impl Vector3 {
    /// Dot product, exact in the integers.
    pub fn dot(&self, rhs: Self) -> (r: i128)
        requires
            in_bounds(*self),
            in_bounds(rhs),
        ensures
            r == dot_spec(*self, rhs),
    {
        assert(-1_000_000_000_000_000_000 <= self.x * rhs.x <= 1_000_000_000_000_000_000) by (nonlinear_arith)
            requires -COORD_BOUND <= self.x <= COORD_BOUND, -COORD_BOUND <= rhs.x <= COORD_BOUND;
        assert(-1_000_000_000_000_000_000 <= self.y * rhs.y <= 1_000_000_000_000_000_000) by (nonlinear_arith)
            requires -COORD_BOUND <= self.y <= COORD_BOUND, -COORD_BOUND <= rhs.y <= COORD_BOUND;
        assert(-1_000_000_000_000_000_000 <= self.z * rhs.z <= 1_000_000_000_000_000_000) by (nonlinear_arith)
            requires -COORD_BOUND <= self.z <= COORD_BOUND, -COORD_BOUND <= rhs.z <= COORD_BOUND;
        (self.x as i128) * (rhs.x as i128) + (self.y as i128) * (rhs.y as i128) + (self.z as i128)
            * (rhs.z as i128)
    }
}


impl Vector3 {
    pub open spec fn length_squared_spec(self) -> int {
        dot_spec(self, self)
    }

    /// Cross product, exact in the integers.
    pub fn cross(&self, rhs: Self) -> (r: Self)
        requires
            in_bounds(*self),
            in_bounds(rhs),
        ensures
            r.x == self.y * rhs.z - self.z * rhs.y,
            r.y == self.z * rhs.x - self.x * rhs.z,
            r.z == self.x * rhs.y - self.y * rhs.x,
    {
        proof {
            lemma_product_bound(self.y, rhs.z);
            lemma_product_bound(self.z, rhs.y);
            lemma_product_bound(self.z, rhs.x);
            lemma_product_bound(self.x, rhs.z);
            lemma_product_bound(self.x, rhs.y);
            lemma_product_bound(self.y, rhs.x);
        }
        Self {
            x: self.y * rhs.z - self.z * rhs.y,
            y: self.z * rhs.x - self.x * rhs.z,
            z: self.x * rhs.y - self.y * rhs.x,
        }
    }

    /// Squared Euclidean length, exact in the integers.
    pub fn length_squared(&self) -> (r: i128)
        requires
            in_bounds(*self),
        ensures
            r == self.length_squared_spec(),
    {
        self.dot(*self)
    }

    /// Whether every component is zero: the exact form of "near zero" for integer vectors.
    pub fn near_zero(&self) -> (r: bool)
        ensures
            r == (self.x == 0 && self.y == 0 && self.z == 0),
    {
        self.x == 0 && self.y == 0 && self.z == 0
    }

    /// Componentwise negation.
    pub fn neg(self) -> (r: Self)
        requires
            in_bounds(self),
        ensures
            r.x == -self.x && r.y == -self.y && r.z == -self.z,
    {
        Self { x: -self.x, y: -self.y, z: -self.z }
    }

    /// Componentwise sum.
    pub fn add(self, rhs: Self) -> (r: Self)
        requires
            in_bounds(self),
            in_bounds(rhs),
        ensures
            r.x == self.x + rhs.x && r.y == self.y + rhs.y && r.z == self.z + rhs.z,
    {
        Self { x: self.x + rhs.x, y: self.y + rhs.y, z: self.z + rhs.z }
    }

    /// Componentwise difference.
    pub fn sub(self, rhs: Self) -> (r: Self)
        requires
            in_bounds(self),
            in_bounds(rhs),
        ensures
            r.x == self.x - rhs.x && r.y == self.y - rhs.y && r.z == self.z - rhs.z,
    {
        Self { x: self.x - rhs.x, y: self.y - rhs.y, z: self.z - rhs.z }
    }

    /// Adds `rhs` into `self`.
    pub fn add_assign(&mut self, rhs: Self)
        requires
            in_bounds(*old(self)),
            in_bounds(rhs),
        ensures
            final(self).x == old(self).x + rhs.x,
            final(self).y == old(self).y + rhs.y,
            final(self).z == old(self).z + rhs.z,
    {
        *self = Self { x: self.x + rhs.x, y: self.y + rhs.y, z: self.z + rhs.z };
    }
}

/// Products of two bounded coordinates fit comfortably in an `i64`.
pub proof fn lemma_product_bound(a: i64, b: i64)
    requires
        -COORD_BOUND <= a <= COORD_BOUND,
        -COORD_BOUND <= b <= COORD_BOUND,
    ensures
        -1_000_000_000_000_000_000 <= a * b <= 1_000_000_000_000_000_000,
{
    assert(-1_000_000_000_000_000_000 <= a * b <= 1_000_000_000_000_000_000) by (nonlinear_arith)
        requires
            -COORD_BOUND <= a <= COORD_BOUND,
            -COORD_BOUND <= b <= COORD_BOUND,
    ;
}

} // verus!
