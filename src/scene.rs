use vstd::prelude::*;
use crate::color::{Color, rgb};
use crate::material::{Dielectric, Lambertian, Material, Metal, Texture};
use crate::vector::{SCALE, Vector3};

verus! {

/// A sphere whose center moves linearly from `center0` at `time0` to `center1` at
/// `time1`; a stationary sphere has equal centers.
#[derive(Clone, Copy, Debug, PartialEq, Eq, Structural)]
pub struct Sphere {
    pub center0: Vector3,
    pub center1: Vector3,
    pub time0: i64,
    pub time1: i64,
    pub radius: i64,
    pub material: Material,
}

/// Number of grid cells along each side of the field of small spheres.
pub const GRID_SIDE: usize = 22;

/// Number of grid cells in the field of small spheres.
pub const GRID_CELLS: usize = 484;

/// The random values drawn for one grid cell, each uniform in `[0, SCALE)`.
#[derive(Clone, Copy, Debug, PartialEq, Eq, Structural)]
pub struct CellDraw {
    pub choose: i64,
    pub jitter_x: i64,
    pub jitter_z: i64,
    pub color_a: Color,
    pub color_b: Color,
    pub lift: i64,
    pub fuzz: i64,
}

pub open spec fn unit_draw(v: i64) -> bool {
    0 <= v < SCALE
}

impl CellDraw {
    pub open spec fn valid(self) -> bool {
        &&& unit_draw(self.choose)
        &&& unit_draw(self.jitter_x)
        &&& unit_draw(self.jitter_z)
        &&& unit_draw(self.color_a.r) && unit_draw(self.color_a.g) && unit_draw(self.color_a.b)
        &&& unit_draw(self.color_b.r) && unit_draw(self.color_b.g) && unit_draw(self.color_b.b)
        &&& unit_draw(self.lift)
        &&& unit_draw(self.fuzz)
    }
}

pub open spec fn v3(x: int, y: int, z: int) -> Vector3 {
    Vector3 { x: x as i64, y: y as i64, z: z as i64 }
}

pub open spec fn still(center: Vector3, radius: int, material: Material) -> Sphere {
    Sphere {
        center0: center,
        center1: center,
        time0: 0,
        time1: SCALE,
        radius: radius as i64,
        material,
    }
}

/// The center of the small sphere of grid cell `(a, b)`.
pub open spec fn cell_center(a: int, b: int, d: CellDraw) -> Vector3 {
    v3(a * SCALE + 9 * d.jitter_x / 10, 200, b * SCALE + 9 * d.jitter_z / 10)
}

/// Whether a cell's sphere keeps clear of the large metal sphere's spot: its center
/// lies more than 0.9 from (4, 0.2, 0).
pub open spec fn clear_of_spot(c: Vector3) -> bool {
    (c.x - 4000) * (c.x - 4000) + (c.y - 200) * (c.y - 200) + c.z * c.z > 900 * 900
}

/// The small sphere of grid cell `(a, b)`, if any.
pub open spec fn cell_sphere(a: int, b: int, d: CellDraw) -> Option<Sphere> {
    let c = cell_center(a, b, d);
    if !clear_of_spot(c) {
        None
    } else if d.choose < 800 {
        let albedo = rgb(
            d.color_a.r * d.color_b.r / 1000,
            d.color_a.g * d.color_b.g / 1000,
            d.color_a.b * d.color_b.b / 1000,
        );
        Some(
            Sphere {
                center0: c,
                center1: v3(c.x as int, c.y + d.lift / 4, c.z as int),
                time0: 0,
                time1: SCALE,
                radius: 200,
                material: Material::Lambertian(
                    Lambertian { albedo: Texture::Solid { color: albedo } },
                ),
            },
        )
    } else if d.choose < 950 {
        let color = rgb(
            d.color_a.r / 2 + 500,
            d.color_a.g / 2 + 500,
            d.color_a.b / 2 + 500,
        );
        Some(still(c, 200, Material::Metal(Metal { color, fuzz: (d.fuzz / 2) as i64 })))
    } else {
        Some(still(c, 200, Material::Dielectric(Dielectric { refractive_index: 1500 })))
    }
}

/// The small spheres of the first `k` grid cells, in row-major order from (-11, -11).
pub open spec fn cells_prefix(draws: Seq<CellDraw>, k: int) -> Seq<Sphere>
    decreases k,
{
    if k <= 0 {
        Seq::empty()
    } else {
        let prev = cells_prefix(draws, k - 1);
        match cell_sphere((k - 1) / 22 - 11, (k - 1) % 22 - 11, draws[k - 1]) {
            Some(s) => prev.push(s),
            None => prev,
        }
    }
}

pub open spec fn ground_sphere() -> Sphere {
    still(
        v3(0, -1_000_000, 0),
        1_000_000,
        Material::Lambertian(
            Lambertian {
                albedo: Texture::Checkered { even: rgb(200, 300, 100), odd: rgb(900, 900, 900) },
            },
        ),
    )
}

pub open spec fn final_spheres() -> Seq<Sphere> {
    seq![
        still(v3(0, 1000, 0), 1000, Material::Dielectric(Dielectric { refractive_index: 1500 })),
        still(
            v3(-4000, 1000, 0),
            1000,
            Material::Lambertian(Lambertian { albedo: Texture::Solid { color: rgb(400, 200, 100) } }),
        ),
        still(v3(4000, 1000, 0), 1000, Material::Metal(Metal { color: rgb(700, 600, 500), fuzz: 0 })),
    ]
}

/// The whole scene: the checkered ground, the field of small spheres, and the three
/// large spheres.
pub open spec fn scene_spec(draws: Seq<CellDraw>) -> Seq<Sphere> {
    seq![ground_sphere()] + cells_prefix(draws, 484) + final_spheres()
}

fn still_sphere(center: Vector3, radius: i64, material: Material) -> (s: Sphere)
    ensures
        s == still(center, radius as int, material),
{
    Sphere { center0: center, center1: center, time0: 0, time1: SCALE, radius, material }
}

fn make_cell_sphere(a: i64, b: i64, d: CellDraw) -> (r: Option<Sphere>)
    requires
        -11 <= a < 11,
        -11 <= b < 11,
        d.valid(),
    ensures
        r == cell_sphere(a as int, b as int, d),
{
    let c = Vector3 { x: a * SCALE + 9 * d.jitter_x / 10, y: 200, z: b * SCALE + 9 * d.jitter_z / 10 };
    let dx: i64 = c.x - 4000;
    let dy: i64 = c.y - 200;
    proof {
        assert(dx * dx <= 20_000 * 20_000) by (nonlinear_arith)
            requires -20_000 <= dx <= 20_000;
        assert(c.z * c.z <= 20_000 * 20_000) by (nonlinear_arith)
            requires -20_000 <= c.z <= 20_000;
        assert(dx * dx >= 0 && c.z * c.z >= 0) by (nonlinear_arith);
    }
    if !(dx * dx + dy * dy + c.z * c.z > 900 * 900) {
        return None;
    }
    if d.choose < 800 {
        proof {
            assert(d.color_a.r * d.color_b.r <= 1_000_000) by (nonlinear_arith)
                requires 0 <= d.color_a.r < 1000, 0 <= d.color_b.r < 1000;
            assert(d.color_a.g * d.color_b.g <= 1_000_000) by (nonlinear_arith)
                requires 0 <= d.color_a.g < 1000, 0 <= d.color_b.g < 1000;
            assert(d.color_a.b * d.color_b.b <= 1_000_000) by (nonlinear_arith)
                requires 0 <= d.color_a.b < 1000, 0 <= d.color_b.b < 1000;
            assert(d.color_a.r * d.color_b.r >= 0) by (nonlinear_arith)
                requires 0 <= d.color_a.r < 1000, 0 <= d.color_b.r < 1000;
            assert(d.color_a.g * d.color_b.g >= 0) by (nonlinear_arith)
                requires 0 <= d.color_a.g < 1000, 0 <= d.color_b.g < 1000;
            assert(d.color_a.b * d.color_b.b >= 0) by (nonlinear_arith)
                requires 0 <= d.color_a.b < 1000, 0 <= d.color_b.b < 1000;
        }
        let albedo = Color {
            r: d.color_a.r * d.color_b.r / 1000,
            g: d.color_a.g * d.color_b.g / 1000,
            b: d.color_a.b * d.color_b.b / 1000,
        };
        Some(
            Sphere {
                center0: c,
                center1: Vector3 { x: c.x, y: c.y + d.lift / 4, z: c.z },
                time0: 0,
                time1: SCALE,
                radius: 200,
                material: Material::Lambertian(
                    Lambertian { albedo: Texture::Solid { color: albedo } },
                ),
            },
        )
    } else if d.choose < 950 {
        let color = Color {
            r: d.color_a.r / 2 + 500,
            g: d.color_a.g / 2 + 500,
            b: d.color_a.b / 2 + 500,
        };
        Some(still_sphere(c, 200, Material::Metal(Metal { color, fuzz: d.fuzz / 2 })))
    } else {
        Some(still_sphere(c, 200, Material::Dielectric(Dielectric { refractive_index: 1500 })))
    }
}

/// Builds the scene from one set of random draws per grid cell, in row-major order.
pub fn scene(draws: &Vec<CellDraw>) -> (world: Vec<Sphere>)
    requires
        draws.len() == GRID_CELLS,
        forall|i: int| 0 <= i < draws.len() ==> (#[trigger] draws@[i]).valid(),
    ensures
        world@ == scene_spec(draws@),
{
    let mut world: Vec<Sphere> = Vec::new();
    world.push(
        still_sphere(
            Vector3 { x: 0, y: -1_000_000, z: 0 },
            1_000_000,
            Material::Lambertian(
                Lambertian {
                    albedo: Texture::Checkered {
                        even: Color { r: 200, g: 300, b: 100 },
                        odd: Color { r: 900, g: 900, b: 900 },
                    },
                },
            ),
        ),
    );
    let mut k: usize = 0;
    while k < GRID_CELLS
        invariant
            0 <= k <= GRID_CELLS,
            draws.len() == GRID_CELLS,
            forall|i: int| 0 <= i < draws.len() ==> (#[trigger] draws@[i]).valid(),
            world@ == seq![ground_sphere()] + cells_prefix(draws@, k as int),
        decreases GRID_CELLS - k,
    {
        let a: i64 = (k / GRID_SIDE) as i64 - 11;
        let b: i64 = (k % GRID_SIDE) as i64 - 11;
        proof {
            assert(draws@[k as int].valid());
        }
        let cell = make_cell_sphere(a, b, draws[k]);
        match cell {
            Some(s) => {
                world.push(s);
            },
            None => {},
        }
        k = k + 1;
        proof {
            assert(((k - 1) as int) / 22 - 11 == a as int);
        }
    }
    world.push(
        still_sphere(
            Vector3 { x: 0, y: 1000, z: 0 },
            1000,
            Material::Dielectric(Dielectric { refractive_index: 1500 }),
        ),
    );
    world.push(
        still_sphere(
            Vector3 { x: -4000, y: 1000, z: 0 },
            1000,
            Material::Lambertian(
                Lambertian { albedo: Texture::Solid { color: Color { r: 400, g: 200, b: 100 } } },
            ),
        ),
    );
    world.push(
        still_sphere(
            Vector3 { x: 4000, y: 1000, z: 0 },
            1000,
            Material::Metal(Metal { color: Color { r: 700, g: 600, b: 500 }, fuzz: 0 }),
        ),
    );
    proof {
        assert(world@ =~= scene_spec(draws@));
    }
    world
}

} // verus!
