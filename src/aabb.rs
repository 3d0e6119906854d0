use vstd::prelude::*;
use crate::vector::{Vector3, in_bounds};

verus! {

/// Axis-aligned bounding box given by its minimum and maximum corners.
#[derive(Clone, Copy, Debug, PartialEq, Eq, Structural)]
pub struct Aabb {
    pub minimum: Vector3,
    pub maximum: Vector3,
}

pub open spec fn min_i(a: i64, b: i64) -> i64 {
    if a <= b { a } else { b }
}

pub open spec fn max_i(a: i64, b: i64) -> i64 {
    if a >= b { a } else { b }
}

impl Aabb {
    /// A box is valid when its minimum corner is componentwise at most its maximum corner.
    pub open spec fn valid(self) -> bool {
        &&& self.minimum.x <= self.maximum.x
        &&& self.minimum.y <= self.maximum.y
        &&& self.minimum.z <= self.maximum.z
    }

    /// `self` lies entirely inside `outer`.
    pub open spec fn inside(self, outer: Aabb) -> bool {
        &&& outer.minimum.x <= self.minimum.x && self.maximum.x <= outer.maximum.x
        &&& outer.minimum.y <= self.minimum.y && self.maximum.y <= outer.maximum.y
        &&& outer.minimum.z <= self.minimum.z && self.maximum.z <= outer.maximum.z
    }

    /// A point lies inside the (closed) box.
    pub open spec fn holds_point(self, p: Vector3) -> bool {
        &&& self.minimum.x <= p.x <= self.maximum.x
        &&& self.minimum.y <= p.y <= self.maximum.y
        &&& self.minimum.z <= p.z <= self.maximum.z
    }

    /// The smallest box enclosing both arguments.
    pub open spec fn union_spec(a: Aabb, b: Aabb) -> Aabb {
        Aabb {
            minimum: Vector3 {
                x: min_i(a.minimum.x, b.minimum.x),
                y: min_i(a.minimum.y, b.minimum.y),
                z: min_i(a.minimum.z, b.minimum.z),
            },
            maximum: Vector3 {
                x: max_i(a.maximum.x, b.maximum.x),
                y: max_i(a.maximum.y, b.maximum.y),
                z: max_i(a.maximum.z, b.maximum.z),
            },
        }
    }

    /// Builds a box from two corners; the corners are ordered componentwise,
    /// so the result is always valid.
    pub fn new(a: Vector3, b: Vector3) -> (r: Aabb)
        ensures
            r.valid(),
            r.minimum == (Vector3 { x: min_i(a.x, b.x), y: min_i(a.y, b.y), z: min_i(a.z, b.z) }),
            r.maximum == (Vector3 { x: max_i(a.x, b.x), y: max_i(a.y, b.y), z: max_i(a.z, b.z) }),
    {
        Aabb {
            minimum: Vector3 {
                x: if a.x <= b.x { a.x } else { b.x },
                y: if a.y <= b.y { a.y } else { b.y },
                z: if a.z <= b.z { a.z } else { b.z },
            },
            maximum: Vector3 {
                x: if a.x >= b.x { a.x } else { b.x },
                y: if a.y >= b.y { a.y } else { b.y },
                z: if a.z >= b.z { a.z } else { b.z },
            },
        }
    }

    /// The enclosing box of `a` and `b`.
    pub fn union(a: &Aabb, b: &Aabb) -> (r: Aabb)
        ensures
            r == Aabb::union_spec(*a, *b),
    {
        Aabb {
            minimum: Vector3 {
                x: if a.minimum.x <= b.minimum.x { a.minimum.x } else { b.minimum.x },
                y: if a.minimum.y <= b.minimum.y { a.minimum.y } else { b.minimum.y },
                z: if a.minimum.z <= b.minimum.z { a.minimum.z } else { b.minimum.z },
            },
            maximum: Vector3 {
                x: if a.maximum.x >= b.maximum.x { a.maximum.x } else { b.maximum.x },
                y: if a.maximum.y >= b.maximum.y { a.maximum.y } else { b.maximum.y },
                z: if a.maximum.z >= b.maximum.z { a.maximum.z } else { b.maximum.z },
            },
        }
    }

    /// Whether `p` lies inside the closed box.
    pub fn contains_point(&self, p: &Vector3) -> (r: bool)
        ensures
            r == self.holds_point(*p),
    {
        self.minimum.x <= p.x && p.x <= self.maximum.x && self.minimum.y <= p.y && p.y
            <= self.maximum.y && self.minimum.z <= p.z && p.z <= self.maximum.z
    }

    /// Whether `inner` lies entirely inside `self`.
    pub fn contains_box(&self, inner: &Aabb) -> (r: bool)
        ensures
            r == inner.inside(*self),
    {
        self.minimum.x <= inner.minimum.x && inner.maximum.x <= self.maximum.x && self.minimum.y
            <= inner.minimum.y && inner.maximum.y <= self.maximum.y && self.minimum.z
            <= inner.minimum.z && inner.maximum.z <= self.maximum.z
    }
}

/// The union of two valid boxes is valid and contains each of them entirely.
pub proof fn lemma_union_contains_both(a: Aabb, b: Aabb)
    requires
        a.valid(),
        b.valid(),
    ensures
        Aabb::union_spec(a, b).valid(),
        a.inside(Aabb::union_spec(a, b)),
        b.inside(Aabb::union_spec(a, b)),
{
}

/// The union is commutative.
pub proof fn lemma_union_commutative(a: Aabb, b: Aabb)
    requires
        a.valid(),
        b.valid(),
    ensures
        Aabb::union_spec(a, b) == Aabb::union_spec(b, a),
{
}

/// The union is associative.
pub proof fn lemma_union_associative(a: Aabb, b: Aabb, c: Aabb)
    requires
        a.valid(),
        b.valid(),
        c.valid(),
    ensures
        Aabb::union_spec(Aabb::union_spec(a, b), c) == Aabb::union_spec(a, Aabb::union_spec(b, c)),
{
}

/// The union is the least enclosing box: any box holding both arguments holds their union.
pub proof fn lemma_union_least(a: Aabb, b: Aabb, outer: Aabb)
    requires
        a.inside(outer),
        b.inside(outer),
    ensures
        Aabb::union_spec(a, b).inside(outer),
{
}

} // verus!
