use vstd::prelude::*;
use crate::bvh::{Bvh, HitRecord, all_indices, lemma_nearest_unique, nearest, prims_valid};
use crate::color::{Color, rgb};
use crate::dielectric::refract_spec;
use crate::hit::{DIR_BOUND, Ray, T_BOUND, pos_ok};
use crate::integrator::{Bounce, path_color, path_valid};
use crate::material::{Material, Texture, lambertian_direction, metal_direction, reflect_spec};
use crate::scene::Sphere;
use crate::unit::{normalize, unit_spec};
use crate::vector::{SCALE, Vector3, dot_spec, unit_range};

verus! {

/// The first step a scattered ray may hit at: keeps a ray from meeting the surface it
/// leaves.
pub const EPS_STEPS: i64 = 1;

/// A ray's direction advances `1 / DIRECTION_DIVISOR` of its unit vector per step.
pub const DIRECTION_DIVISOR: i64 = 20;

/// The random values one bounce consumes: a sample of the unit sphere (fixed point)
/// and a uniform draw in `[0, SCALE)`.
#[derive(Clone, Copy, Debug, PartialEq, Eq, Structural)]
pub struct BounceDraw {
    pub random: Vector3,
    pub draw: i64,
}

impl Texture {
    pub open spec fn valid(self) -> bool {
        match self {
            Texture::Solid { color } => color.valid(),
            Texture::Checkered { even, odd } => even.valid() && odd.valid(),
        }
    }
}

impl Material {
    /// The material's parameters are in range and its colors are proper attenuations.
    pub open spec fn valid(self) -> bool {
        match self {
            Material::Lambertian(l) => l.albedo.valid(),
            Material::Metal(m) => m.valid() && m.color.valid(),
            Material::Dielectric(g) => g.valid(),
        }
    }

    /// The attenuation at point `p`.
    pub open spec fn attenuation_spec(self, p: Vector3) -> Color {
        match self {
            Material::Lambertian(l) => l.albedo.color_spec(p),
            Material::Metal(m) => m.color,
            Material::Dielectric(_) => rgb(1000, 1000, 1000),
        }
    }

    /// The scattered unit direction, or `None` when the surface absorbs the ray.
    pub open spec fn scatter_spec(self, v: Vector3, n: Vector3, front: bool, d: BounceDraw) -> Option<
        Vector3,
    > {
        match self {
            Material::Lambertian(_) => Some(unit_spec(lambertian_direction(n, d.random))),
            Material::Metal(m) => {
                let dir = metal_direction(unit_spec(reflect_spec(v, n)), m.fuzz, d.random);
                if dot_spec(dir, n) > 0 {
                    Some(unit_spec(dir))
                } else {
                    None
                }
            },
            Material::Dielectric(g) => Some(
                if g.reflects(v, n, front, d.draw as int) {
                    unit_spec(reflect_spec(v, n))
                } else {
                    unit_spec(refract_spec(v, n, g.ratio_spec(front)))
                },
            ),
        }
    }

    /// Dispatches to the material's own scattering rule.
    pub fn scatter(&self, v: Vector3, n: Vector3, front: bool, d: BounceDraw) -> (r: Option<Vector3>)
        requires
            self.valid(),
            unit_range(v),
            unit_range(n),
            unit_range(d.random),
            dot_spec(n, n) > 0,
        ensures
            r == self.scatter_spec(v, n, front, d),
            r matches Some(u) ==> unit_range(u),
    {
        match self {
            Material::Lambertian(l) => Some(l.scatter(n, d.random)),
            Material::Metal(m) => m.scatter(v, n, d.random),
            Material::Dielectric(g) => Some(g.scatter(v, n, front, d.draw)),
        }
    }

    /// The attenuation at point `p`.
    pub fn attenuation(&self, p: Vector3) -> (c: Color)
        requires
            self.valid(),
        ensures
            c == self.attenuation_spec(p),
            c.valid(),
    {
        match self {
            Material::Lambertian(l) => l.color(p),
            Material::Metal(m) => m.color,
            Material::Dielectric(_) => Color::white(),
        }
    }
}

pub open spec fn materials_valid(prims: Seq<Sphere>) -> bool {
    forall|i: int| 0 <= i < prims.len() ==> (#[trigger] prims[i]).material.valid()
}

/// The direction a ray takes per step along unit vector `u`.
pub open spec fn step_direction(u: Vector3) -> Vector3 {
    Vector3 {
        x: (u.x as int / DIRECTION_DIVISOR as int) as i64,
        y: (u.y as int / DIRECTION_DIVISOR as int) as i64,
        z: (u.z as int / DIRECTION_DIVISOR as int) as i64,
    }
}

pub open spec fn is_zero(v: Vector3) -> bool {
    v.x == 0 && v.y == 0 && v.z == 0
}

/// What a ray meets given its nearest hit `h`: on a miss, the sky; on a hit, the
/// surface's scatter, with the ray it continues as, or absorption. A hit whose normal
/// vanishes (a point sphere), or whose scattered ray would leave the representable
/// region, absorbs.
pub open spec fn bounce_spec(prims: Seq<Sphere>, ray: Ray, h: Option<HitRecord>, d: BounceDraw) -> (
    Bounce,
    Option<Ray>,
) {
    match h {
        None => (Bounce::Miss { dir_y: unit_spec(ray.direction).y }, None),
        Some((i, t)) => {
            let s = prims[i as int];
            let q = ray.at(t as int);
            let p = Vector3 { x: q.0 as i64, y: q.1 as i64, z: q.2 as i64 };
            let (n, front) = s.surface_normal_spec(ray, t as int);
            let absorbed = (Bounce::Absorb { emitted: rgb(0, 0, 0) }, None);
            if s.radius == 0 || is_zero(n) {
                absorbed
            } else {
                match s.material.scatter_spec(unit_spec(ray.direction), n, front, d) {
                    None => absorbed,
                    Some(u) => {
                        let next = Ray { origin: p, direction: step_direction(u), time: ray.time };
                        if !pos_ok(p) || is_zero(next.direction) {
                            absorbed
                        } else {
                            (Bounce::Scatter { attenuation: s.material.attenuation_spec(p) }, Some(next))
                        }
                    },
                }
            }
        },
    }
}

fn step_axis(c: i64) -> (r: i64)
    requires
        -SCALE <= c <= SCALE,
    ensures
        r == c as int / (DIRECTION_DIVISOR as int),
        -DIR_BOUND <= r <= DIR_BOUND,
{
    proof {
        vstd::arithmetic::div_mod::lemma_div_is_ordered(c as int, 1000, 20);
        vstd::arithmetic::div_mod::lemma_div_is_ordered(-1000, c as int, 20);
    }
    crate::material::div_floor_pos(c as i128, 20) as i64
}

/// One bounce of the path tracer: queries the scene from `EPS_STEPS` on and resolves
/// the surface met.
pub fn bounce(prims: &Vec<Sphere>, bvh: &Bvh, ray: &Ray, d: BounceDraw) -> (r: (Bounce, Option<Ray>))
    requires
        bvh.wf(prims@),
        prims_valid(prims@),
        materials_valid(prims@),
        ray.valid(),
        unit_range(d.random),
    ensures
        forall|h: Option<HitRecord>|
            nearest(prims@, all_indices(prims.len() as int), *ray, EPS_STEPS as int, T_BOUND as int, h)
                ==> r == bounce_spec(prims@, *ray, h, d),
        exists|h: Option<HitRecord>|
            nearest(prims@, all_indices(prims.len() as int), *ray, EPS_STEPS as int, T_BOUND as int, h),
        r.0.valid(),
        r.1 matches Some(next) ==> next.valid(),
{
    let h = bvh.intersect(prims, ray, EPS_STEPS, T_BOUND);
    proof {
        assert forall|h2: Option<HitRecord>|
            nearest(prims@, all_indices(prims.len() as int), *ray, EPS_STEPS as int, T_BOUND as int, h2)
                implies h2 == h by {
            lemma_nearest_unique(prims@, all_indices(prims.len() as int), *ray, EPS_STEPS as int, T_BOUND as int, h, h2);
        }
    }
    let v = normalize(ray.direction);
    assert(nearest(prims@, all_indices(prims.len() as int), *ray, EPS_STEPS as int, T_BOUND as int, h));
    match h {
        None => (Bounce::Miss { dir_y: v.y }, None),
        Some((i, t)) => {
            proof {
                assert(all_indices(prims.len() as int).contains(i as int));
                assert(prims@[i as int].valid());
                assert(prims@[i as int].material.valid());
            }
            let s = &prims[i];
            let absorbed = (Bounce::Absorb { emitted: Color::black() }, None);
            if s.radius == 0 {
                return absorbed;
            }
            let p = ray.at_distance(t);
            let (n, front) = s.surface_normal(ray, t);
            if n.near_zero() {
                return absorbed;
            }
            proof {
                assert(dot_spec(n, n) > 0) by (nonlinear_arith)
                    requires !(n.x == 0 && n.y == 0 && n.z == 0);
            }
            match s.material.scatter(v, n, front, d) {
                None => absorbed,
                Some(u) => {
                    let dir = Vector3 { x: step_axis(u.x), y: step_axis(u.y), z: step_axis(u.z) };
                    let inside = -4_000_000 <= p.x && p.x <= 4_000_000 && -4_000_000 <= p.y && p.y
                        <= 4_000_000 && -4_000_000 <= p.z && p.z <= 4_000_000;
                    if !inside || dir.near_zero() {
                        absorbed
                    } else {
                        let c = s.material.attenuation(p);
                        (Bounce::Scatter { attenuation: c }, Some(Ray { origin: p, direction: dir, time: ray.time }))
                    }
                },
            }
        },
    }
}


/// The scene's nearest hit for `ray`, from `EPS_STEPS` on.
pub open spec fn scene_hit(prims: Seq<Sphere>, ray: Ray) -> Option<HitRecord> {
    choose|h: Option<HitRecord>|
        nearest(prims, all_indices(prims.len() as int), ray, EPS_STEPS as int, T_BOUND as int, h)
}

/// The bounces a ray's path resolves to, using `draws[k]` for its first bounce and the
/// following draws for the later ones, for at most `depth` bounces.
pub open spec fn trace_spec(prims: Seq<Sphere>, ray: Ray, draws: Seq<BounceDraw>, k: int, depth: nat) -> Seq<
    Bounce,
>
    decreases depth,
{
    if depth == 0 || k < 0 || k >= draws.len() {
        Seq::empty()
    } else {
        let (b, next) = bounce_spec(prims, ray, scene_hit(prims, ray), draws[k]);
        match next {
            None => seq![b],
            Some(r2) => seq![b] + trace_spec(prims, r2, draws, k + 1, (depth - 1) as nat),
        }
    }
}

pub open spec fn draws_valid(draws: Seq<BounceDraw>) -> bool {
    forall|i: int| 0 <= i < draws.len() ==> unit_range(#[trigger] draws[i].random)
}

/// Follows `ray` through the scene for at most `depth` bounces, recording what each
/// bounce met.
pub fn trace_path(prims: &Vec<Sphere>, bvh: &Bvh, ray: &Ray, draws: &Vec<BounceDraw>, depth: u32) -> (path: Vec<
    Bounce,
>)
    requires
        bvh.wf(prims@),
        prims_valid(prims@),
        materials_valid(prims@),
        ray.valid(),
        draws_valid(draws@),
    ensures
        path@ == trace_spec(prims@, *ray, draws@, 0, depth as nat),
        path_valid(path@),
{
    let mut path: Vec<Bounce> = Vec::new();
    let mut cur = *ray;
    let mut k: usize = 0;
    let mut going = true;
    while going && k < depth as usize && k < draws.len()
        invariant
            bvh.wf(prims@),
            prims_valid(prims@),
            materials_valid(prims@),
            draws_valid(draws@),
            k <= depth,
            going ==> cur.valid(),
            going ==> path@ + trace_spec(prims@, cur, draws@, k as int, (depth - k) as nat)
                == trace_spec(prims@, *ray, draws@, 0, depth as nat),
            !going ==> path@ == trace_spec(prims@, *ray, draws@, 0, depth as nat),
            path_valid(path@),
        decreases depth - k + (if going { 1int } else { 0int }),
    {
        proof {
            assert(unit_range(draws@[k as int].random));
        }
        let (b, next) = bounce(prims, bvh, &cur, draws[k]);
        proof {
            let h = scene_hit(prims@, cur);
            assert(nearest(prims@, all_indices(prims.len() as int), cur, EPS_STEPS as int, T_BOUND as int, h));
            assert((b, next) == bounce_spec(prims@, cur, h, draws@[k as int]));
        }
        let ghost before = path@;
        path.push(b);
        proof {
            assert forall|i: int| 0 <= i < path@.len() implies #[trigger] path@[i].valid() by {
                if i < before.len() {
                    assert(path@[i] == before[i]);
                }
            }
        }
        match next {
            None => {
                going = false;
                proof {
                    assert(path@ =~= before + seq![b]);
                    assert(before + trace_spec(prims@, cur, draws@, k as int, (depth - k) as nat)
                        == trace_spec(prims@, *ray, draws@, 0, depth as nat));
                }
            },
            Some(r2) => {
                proof {
                    let rest = trace_spec(prims@, r2, draws@, k + 1, (depth - k - 1) as nat);
                    assert(trace_spec(prims@, cur, draws@, k as int, (depth - k) as nat) == seq![b] + rest);
                    assert(before + (seq![b] + rest) =~= path@ + rest);
                }
                cur = r2;
            },
        }
        k = k + 1;
    }
    proof {
        if going {
            assert(trace_spec(prims@, cur, draws@, k as int, (depth - k) as nat) =~= Seq::<Bounce>::empty());
            assert(path@ + Seq::<Bounce>::empty() =~= path@);
        }
    }
    path
}

/// The color a camera ray brings back: its path traced through the scene for at most
/// `depth` bounces, then folded into a color.
pub fn trace_color(prims: &Vec<Sphere>, bvh: &Bvh, ray: &Ray, draws: &Vec<BounceDraw>, depth: u32) -> (c: Color)
    requires
        bvh.wf(prims@),
        prims_valid(prims@),
        materials_valid(prims@),
        ray.valid(),
        draws_valid(draws@),
    ensures
        c == path_color(trace_spec(prims@, *ray, draws@, 0, depth as nat), 0, depth as nat),
        c.valid(),
{
    let path = trace_path(prims, bvh, ray, draws, depth);
    crate::integrator::ray_color(&path, depth)
}

} // verus!
