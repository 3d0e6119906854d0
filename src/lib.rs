// A Monte Carlo path tracer's core in exact fixed-point integers (`vector::SCALE`
// stands for 1.0): bounding boxes, spheres and their ray intersection, a bounding
// volume hierarchy that answers nearest-hit queries exactly as a linear scan would,
// the materials' scattering rules, the path integrator, pixel averaging, and the
// splitting of an image into row blocks and their reassembly.
use vstd::prelude::*;

pub mod vector;
pub mod aabb;
pub mod color;
pub mod integrator;
pub mod pixel;
pub mod material;
pub mod scene;
pub mod tiles;
pub mod hit;
pub mod bvh;
pub mod dielectric;
pub mod unit;
pub mod trace;

verus! {

} // verus!
