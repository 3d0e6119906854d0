use pathtrace::aabb::Aabb;
use pathtrace::bvh::{intersect_linear, Bvh, ConstructionError};
use pathtrace::color::{background, Color, Rgb8};
use pathtrace::hit::Ray;
use pathtrace::integrator::{ray_color, Bounce};
use pathtrace::material::{reflect_ray, Dielectric, Lambertian, Material, Metal, Texture};
use pathtrace::pixel::{int_sqrt, pixel_from_samples};
use pathtrace::scene::{scene, CellDraw, Sphere, GRID_CELLS};
use pathtrace::tiles::{assemble, partition_rows, AssemblyError, ImageBlock};
use pathtrace::vector::Vector3;

fn v(x: i64, y: i64, z: i64) -> Vector3 {
    Vector3 { x, y, z }
}

fn still(center: Vector3, radius: i64, material: Material) -> Sphere {
    Sphere { center0: center, center1: center, time0: 0, time1: 1000, radius, material }
}

fn gray() -> Material {
    Material::Lambertian(Lambertian { albedo: Texture::Solid { color: Color { r: 500, g: 500, b: 500 } } })
}

/// A small deterministic generator of draws in [0, 1000).
struct Lcg(u64);

impl Lcg {
    fn next(&mut self) -> i64 {
        self.0 = self.0.wrapping_mul(6364136223846793005).wrapping_add(1442695040888963407);
        ((self.0 >> 33) % 1000) as i64
    }
    fn color(&mut self) -> Color {
        Color { r: self.next(), g: self.next(), b: self.next() }
    }
}

fn draws(seed: u64) -> Vec<CellDraw> {
    let mut g = Lcg(seed);
    (0..GRID_CELLS)
        .map(|_| CellDraw {
            choose: g.next(),
            jitter_x: g.next(),
            jitter_z: g.next(),
            color_a: g.color(),
            color_b: g.color(),
            lift: g.next(),
            fuzz: g.next(),
        })
        .collect()
}

#[test]
fn union_contains_both_and_commutes() {
    let a = Aabb::new(v(0, 0, 0), v(2, 3, 4));
    let b = Aabb::new(v(-1, 5, 1), v(1, 6, 2));
    let u = Aabb::union(&a, &b);
    assert_eq!(u.minimum, v(-1, 0, 0));
    assert_eq!(u.maximum, v(2, 6, 4));
    assert!(u.contains_box(&a) && u.contains_box(&b));
    assert_eq!(u, Aabb::union(&b, &a));
    let c = Aabb::new(v(10, -10, 3), v(11, -9, 30));
    assert_eq!(Aabb::union(&Aabb::union(&a, &b), &c), Aabb::union(&a, &Aabb::union(&b, &c)));
}

#[test]
fn new_orders_corners() {
    let a = Aabb::new(v(5, -1, 2), v(-3, 4, 2));
    assert_eq!(a.minimum, v(-3, -1, 2));
    assert_eq!(a.maximum, v(5, 4, 2));
    assert!(a.contains_point(&v(0, 0, 2)));
    assert!(!a.contains_point(&v(0, 5, 2)));
}

#[test]
fn zero_budget_is_black() {
    let path = vec![Bounce::Miss { dir_y: 1000 }];
    assert_eq!(ray_color(&path, 0), Color { r: 0, g: 0, b: 0 });
    let path = vec![Bounce::Scatter { attenuation: Color { r: 1000, g: 1000, b: 1000 } }, Bounce::Miss { dir_y: 0 }];
    assert_eq!(ray_color(&path, 0), Color { r: 0, g: 0, b: 0 });
}

#[test]
fn sky_straight_up_and_white_straight_down() {
    assert_eq!(ray_color(&vec![Bounce::Miss { dir_y: 1000 }], 5), Color { r: 500, g: 700, b: 1000 });
    assert_eq!(ray_color(&vec![Bounce::Miss { dir_y: -1000 }], 5), Color { r: 1000, g: 1000, b: 1000 });
    assert_eq!(background(0), Color { r: 750, g: 850, b: 1000 });
}

#[test]
fn scatter_attenuates_and_budget_cuts_path() {
    let half = Color { r: 500, g: 500, b: 500 };
    let path = vec![Bounce::Scatter { attenuation: half }, Bounce::Miss { dir_y: 1000 }];
    assert_eq!(ray_color(&path, 2), Color { r: 250, g: 350, b: 500 });
    assert_eq!(ray_color(&path, 1), Color { r: 0, g: 0, b: 0 });
    let absorbed = vec![Bounce::Absorb { emitted: Color { r: 0, g: 0, b: 0 } }];
    assert_eq!(ray_color(&absorbed, 3), Color { r: 0, g: 0, b: 0 });
}

#[test]
fn lambertian_stays_in_hemisphere() {
    let mat = Lambertian { albedo: Texture::Solid { color: Color { r: 1, g: 2, b: 3 } } };
    let n = v(0, 1000, 0);
    let mut g = Lcg(7);
    for _ in 0..200 {
        let r = v(g.next() * 2 - 1000, g.next() * 2 - 1000, g.next() * 2 - 1000);
        if r.x * r.x + r.y * r.y + r.z * r.z > 1_000_000 {
            continue;
        }
        let d = mat.scatter(n, r);
        assert!(d.x * n.x + d.y * n.y + d.z * n.z >= 0);
        assert_eq!(d, normalize(v(r.x, 1000 + r.y, r.z)));
        let len2 = d.x * d.x + d.y * d.y + d.z * d.z;
        assert!(len2 <= 1_004_000 && len2 >= 994_000);
    }
    // exact cancellation falls back to the normal
    assert_eq!(mat.scatter(n, v(0, -1000, 0)), n);
    // normal (0,1,0) with random (1,0,0): the unit vector along (1,1,0)
    assert_eq!(mat.scatter(n, v(1000, 0, 0)), v(707, 707, 0));
    assert_eq!(mat.color(v(4, 5, 6)), Color { r: 1, g: 2, b: 3 });
}

#[test]
fn checkered_texture_alternates() {
    let t = Texture::Checkered { even: Color { r: 1, g: 1, b: 1 }, odd: Color { r: 2, g: 2, b: 2 } };
    assert_eq!(t.color(v(0, 0, 0)), Color { r: 1, g: 1, b: 1 });
    assert_eq!(t.color(v(314, 0, 0)), Color { r: 2, g: 2, b: 2 });
    assert_eq!(t.color(v(-1, 0, 0)), Color { r: 2, g: 2, b: 2 });
}

#[test]
fn metal_without_fuzz_mirrors_head_on_ray() {
    let n = v(0, 1000, 0);
    let m = Metal { color: Color { r: 700, g: 600, b: 500 }, fuzz: 0 };
    assert_eq!(m.scatter(v(0, -1000, 0), n, v(300, 400, 0)), Some(v(0, 1000, 0)));
    assert_eq!(reflect_ray(v(500, -700, 0), n), v(581, 813, 0));
    assert_eq!(reflect_ray(v(0, -2000, 0), n), v(0, 1000, 0));
}

#[test]
fn metal_with_fuzz_absorbs_when_pushed_below_surface() {
    let n = v(0, 1000, 0);
    let m = Metal { color: Color { r: 700, g: 600, b: 500 }, fuzz: 1000 };
    assert_eq!(m.scatter(v(1000, -10, 0), n, v(0, -1000, 0)), None);
    assert_eq!(m.scatter(v(1000, -10, 0), n, v(0, 1000, 0)), Some(v(703, 710, 0)));
}

#[test]
fn sphere_hit_point_is_on_surface() {
    let s = still(v(0, 0, 0), 1000, gray());
    let ray = Ray { origin: v(0, 0, -5000), direction: v(0, 0, 1), time: 0 };
    assert_eq!(s.hit(&ray, 0, 1_000_000), Some(4000));
    // the hit point (0, 0, -1000) lies at distance 1000 from the center
    let ray = Ray { origin: v(0, 0, -5000), direction: v(0, 0, 3), time: 0 };
    let t = s.hit(&ray, 0, 1_000_000).unwrap();
    let z = -5000 + 3 * t;
    assert!(z * z <= 1000 * 1000);
    assert!((z - 3) * (z - 3) > 1000 * 1000);
    assert_eq!(s.hit(&ray, 0, 1000), None);
    let away = Ray { origin: v(0, 0, -5000), direction: v(0, 0, -1), time: 0 };
    assert_eq!(s.hit(&away, 0, 1_000_000), None);
}

#[test]
fn moving_sphere_follows_ray_time() {
    let s = Sphere { center0: v(0, 0, 0), center1: v(0, 2000, 0), time0: 0, time1: 1000, radius: 100, material: gray() };
    assert_eq!(s.center_at_time(500), (0, 1000, 0));
    assert_eq!(s.center_at_time(5000), (0, 2000, 0));
    let ray = Ray { origin: v(-5000, 1000, 0), direction: v(1, 0, 0), time: 500 };
    assert_eq!(s.hit(&ray, 0, 1_000_000), Some(4900));
    let early = Ray { time: 0, ..ray };
    assert_eq!(s.hit(&early, 0, 1_000_000), None);
    let b = s.bounding_box();
    assert_eq!(b.minimum, v(-100, -100, -100));
    assert_eq!(b.maximum, v(100, 2100, 100));
}

#[test]
fn bvh_matches_linear_scan() {
    let world = scene(&draws(42));
    let bvh = Bvh::create_tree(&world, &vec![0, 2, 1, 1, 0, 2]).unwrap();
    let mut g = Lcg(99);
    for _ in 0..300 {
        let ray = Ray {
            origin: v(13000 + g.next(), 2000 + g.next(), 3000),
            direction: v(-(g.next() % 13) - 1, -(g.next() % 3), -(g.next() % 4)),
            time: g.next(),
        };
        let a = bvh.intersect(&world, &ray, 10, 4_000_000);
        let b = intersect_linear(&world, &ray, 10, 4_000_000);
        assert_eq!(a, b);
        if let Some((i, t)) = a {
            assert_eq!(world[i].hit(&ray, 10, t), Some(t));
        }
    }
}

#[test]
fn bvh_on_empty_list_fails() {
    assert!(matches!(Bvh::create_tree(&Vec::new(), &vec![0]), Err(ConstructionError::Empty)));
}

#[test]
fn bvh_with_two_spheres_finds_nearer() {
    let world = vec![still(v(0, 0, 5000), 1000, gray()), still(v(0, 0, 2000), 500, gray())];
    let bvh = Bvh::create_tree(&world, &vec![2]).unwrap();
    let ray = Ray { origin: v(0, 0, 0), direction: v(0, 0, 1), time: 0 };
    assert_eq!(bvh.intersect(&world, &ray, 0, 4_000_000), Some((1, 1500)));
    assert_eq!(bvh.intersect(&world, &ray, 0, 1000), None);
}

#[test]
fn scene_layout() {
    let world = scene(&draws(1));
    assert!(world.len() >= 4 && world.len() <= 4 + GRID_CELLS);
    assert_eq!(world[0].radius, 1_000_000);
    assert_eq!(world[0].center0, v(0, -1_000_000, 0));
    let n = world.len();
    assert_eq!(world[n - 3].material, Material::Dielectric(Dielectric { refractive_index: 1500 }));
    assert_eq!(world[n - 1].material, Material::Metal(Metal { color: Color { r: 700, g: 600, b: 500 }, fuzz: 0 }));
    for s in &world[1..n - 3] {
        assert_eq!(s.radius, 200);
        assert_eq!(s.center0.y, 200);
    }
}

#[test]
fn partition_puts_remainder_last() {
    assert_eq!(partition_rows(10, 3), vec![(0, 3), (3, 6), (6, 10)]);
    let p = partition_rows(800, 8);
    assert_eq!(p.len(), 8);
    assert_eq!(p[0], (0, 100));
    assert_eq!(p[7], (700, 800));
}

fn block(start: u32, end: u32, width: usize, shade: u8) -> ImageBlock {
    ImageBlock {
        start_row: start,
        end_row: end,
        rows: (start..end).map(|_| vec![Rgb8 { r: shade, g: shade, b: shade }; width]).collect(),
    }
}

#[test]
fn assembly_ignores_arrival_order() {
    let blocks = vec![block(2, 4, 2, 9), block(0, 2, 2, 1)];
    let img = assemble(2, 4, &blocks).unwrap();
    assert_eq!(img[0][0].r, 1);
    assert_eq!(img[1][1].r, 1);
    assert_eq!(img[2][0].r, 9);
    assert_eq!(img[3][1].r, 9);
}

#[test]
fn assembly_rejects_bad_blocks() {
    let short = ImageBlock { start_row: 0, end_row: 2, rows: vec![vec![Rgb8 { r: 0, g: 0, b: 0 }; 2]] };
    assert_eq!(assemble(2, 4, &vec![short]).unwrap_err(), AssemblyError::BlockShape { index: 0 });
    let overlapping = vec![block(0, 3, 2, 1), block(2, 4, 2, 2)];
    assert_eq!(assemble(2, 4, &overlapping).unwrap_err(), AssemblyError::Overlap { first: 1, second: 0 });
    assert_eq!(assemble(2, 4, &vec![block(3, 5, 2, 1)]).unwrap_err(), AssemblyError::BlockShape { index: 0 });
}

#[test]
fn pixel_averages_gamma_and_quantizes() {
    let white = Color { r: 1000, g: 1000, b: 1000 };
    let black = Color { r: 0, g: 0, b: 0 };
    assert_eq!(pixel_from_samples(&vec![white; 4]), Rgb8 { r: 255, g: 255, b: 255 });
    assert_eq!(pixel_from_samples(&vec![black; 3]), Rgb8 { r: 0, g: 0, b: 0 });
    // mean 0.25, gamma 2 gives 0.5, which is level 128
    assert_eq!(pixel_from_samples(&vec![white, black, black, black]), Rgb8 { r: 128, g: 128, b: 128 });
    assert_eq!(int_sqrt(250_000), 500);
    assert_eq!(int_sqrt(999_999), 999);
}

#[test]
fn cross_and_dot() {
    let a = v(1, 0, 0);
    let b = v(0, 1, 0);
    assert_eq!(a.cross(b), v(0, 0, 1));
    assert_eq!(v(1, 2, 3).dot(v(4, 5, 6)), 32);
    assert!(v(0, 0, 0).near_zero());
    assert!(!v(0, 1, 0).near_zero());
}

#[test]
fn sphere_pixels_differ_from_background() {
    // one ground sphere and one unit sphere at the origin, one sample, depth 1
    let world = vec![
        still(v(0, -1_001_000, 0), 1_000_000, gray()),
        still(v(0, 0, 0), 1000, gray()),
    ];
    let bvh = Bvh::create_tree(&world, &vec![1]).unwrap();
    let draws = vec![BounceDraw { random: v(0, 1000, 0), draw: 500 }];
    let color_of = |ray: &Ray| -> Color { trace_color(&world, &bvh, ray, &draws, 1) };
    let hit_ray = Ray { origin: v(0, 0, -5000), direction: v(0, 0, 10), time: 0 };
    let sky_ray = Ray { origin: v(0, 0, -5000), direction: v(0, 6, 8), time: 0 };
    assert!(bvh.intersect(&world, &hit_ray, 10, 4_000_000).is_some());
    assert!(bvh.intersect(&world, &sky_ray, 10, 4_000_000).is_none());
    let on_sphere = pixel_from_samples(&vec![color_of(&hit_ray)]);
    let on_sky = pixel_from_samples(&vec![color_of(&sky_ray)]);
    assert_ne!(on_sphere, on_sky);
}

use pathtrace::dielectric::{reflectance_schlick, refract};
use pathtrace::trace::{trace_color, trace_path, BounceDraw};
use pathtrace::unit::{int_sqrt_wide, normalize};

#[test]
fn normalize_gives_unit_vectors() {
    assert_eq!(normalize(v(3, 4, 0)), v(600, 800, 0));
    assert_eq!(normalize(v(0, -7, 0)), v(0, -1000, 0));
    assert_eq!(normalize(v(1, 1, 1)), v(577, 577, 577));
    assert_eq!(normalize(v(10, 10, 10)), v(577, 577, 577));
    assert_eq!(normalize(v(0, 0, 0)), v(0, 0, 0));
    assert_eq!(int_sqrt_wide(3_000_000_000_000_000_000), 1_732_050_807);
}

#[test]
fn schlick_accepts_large_indices() {
    assert_eq!(reflectance_schlick(1000, 100_000), 960);
    assert!(reflectance_schlick(500, 1500) >= reflectance_schlick(800, 1500));
}

#[test]
fn negative_steps_go_backwards() {
    let ray = Ray { origin: v(1, 2, 3), direction: v(10, -20, 5), time: 0 };
    assert_eq!(ray.at_distance(-2), v(-19, 42, -7));
}

fn glass() -> Material {
    Material::Dielectric(Dielectric { refractive_index: 1500 })
}

#[test]
fn traced_path_resolves_each_bounce() {
    let world = vec![still(v(0, 0, 0), 1000, gray())];
    let bvh = Bvh::create_tree(&world, &vec![0]).unwrap();
    let draws = vec![BounceDraw { random: v(0, 0, 0), draw: 500 }; 4];
    // straight at the sphere: diffuse bounce back along the normal, then out to the sky
    let ray = Ray { origin: v(0, 0, -5000), direction: v(0, 0, 50), time: 0 };
    let path = trace_path(&world, &bvh, &ray, &draws, 4);
    assert_eq!(path.len(), 2);
    assert_eq!(path[0], Bounce::Scatter { attenuation: Color { r: 500, g: 500, b: 500 } });
    assert_eq!(path[1], Bounce::Miss { dir_y: 0 });
    assert_eq!(trace_color(&world, &bvh, &ray, &draws, 4), Color { r: 375, g: 425, b: 500 });
    // budget of one bounce: black
    assert_eq!(trace_color(&world, &bvh, &ray, &draws, 1), Color { r: 0, g: 0, b: 0 });
    // straight up: sky
    let up = Ray { origin: v(0, 0, -5000), direction: v(0, 50, 0), time: 0 };
    assert_eq!(trace_color(&world, &bvh, &up, &draws, 4), Color { r: 500, g: 700, b: 1000 });
    // through a glass sphere head-on, with a high draw: refracts straight through
    let world = vec![still(v(0, 0, 0), 1000, glass())];
    let bvh = Bvh::create_tree(&world, &vec![0]).unwrap();
    let path = trace_path(&world, &bvh, &ray, &draws, 4);
    assert_eq!(path[0], Bounce::Scatter { attenuation: Color { r: 1000, g: 1000, b: 1000 } });
}

#[test]
fn ties_go_to_the_lower_index() {
    let world = vec![still(v(0, 0, 3000), 1000, gray()), still(v(0, 0, 3000), 1000, glass())];
    let bvh = Bvh::create_tree(&world, &vec![2]).unwrap();
    let ray = Ray { origin: v(0, 0, 0), direction: v(0, 0, 1), time: 0 };
    assert_eq!(bvh.intersect(&world, &ray, 0, 4_000_000), Some((0, 2000)));
    assert_eq!(intersect_linear(&world, &ray, 0, 4_000_000), Some((0, 2000)));
}

#[test]
fn schlick_reflectance_values() {
    // head-on through glass: r0 = (0.5 / 2.5)^2 = 0.04
    assert_eq!(reflectance_schlick(1000, 1500), 40);
    // grazing: everything reflects
    assert_eq!(reflectance_schlick(0, 1500), 1000);
    // index 1: no reflectance head-on
    assert_eq!(reflectance_schlick(1000, 1000), 0);
}

#[test]
fn refraction_with_unit_ratio_keeps_direction() {
    let n = v(0, 1000, 0);
    for d in [v(0, -1000, 0), v(600, -800, 0), v(0, -600, 800), v(-800, -600, 0)] {
        assert_eq!(refract(d, n, 1000), d);
    }
}

#[test]
fn refraction_bends_towards_normal_entering_glass() {
    let n = v(0, 1000, 0);
    let out = refract(v(600, -800, 0), n, 666);
    assert_eq!(out, v(399, -917, 0));
}

#[test]
fn dielectric_reflects_or_refracts() {
    let glass = Dielectric { refractive_index: 1500 };
    let n = v(0, 1000, 0);
    // head-on, draw above the reflectance: refracts straight through
    assert_eq!(glass.scatter(v(0, -1000, 0), n, true, 999), v(0, -1000, 0));
    // head-on, draw below the 4% reflectance: mirror
    assert_eq!(glass.scatter(v(0, -1000, 0), n, true, 10), v(0, 1000, 0));
    // leaving glass at a grazing angle: total internal reflection
    assert_eq!(glass.scatter(v(800, -600, 0), n, false, 999), v(800, 600, 0));
    let air = Dielectric { refractive_index: 1000 };
    assert_eq!(air.scatter(v(600, -800, 0), n, true, 999), v(600, -800, 0));
}

#[test]
fn ray_point_at_step() {
    let ray = Ray { origin: v(1, 2, 3), direction: v(10, -20, 5), time: 0 };
    assert_eq!(ray.at_distance(3), v(31, -58, 18));
    assert_eq!(ray.at_distance(0), v(1, 2, 3));
}

#[test]
fn surface_normal_faces_the_ray() {
    let s = still(v(0, 0, 0), 1000, gray());
    let ray = Ray { origin: v(0, 0, -5000), direction: v(0, 0, 1), time: 0 };
    assert_eq!(s.surface_normal(&ray, 4000), (v(0, 0, -1000), true));
    let inside = Ray { origin: v(0, 0, 0), direction: v(0, 0, 1), time: 0 };
    assert_eq!(s.surface_normal(&inside, 1000), (v(0, 0, -1000), false));
}

use pathtrace::bvh::BvhNode;

#[test]
fn two_spheres_put_lesser_on_the_left() {
    let world = vec![still(v(5000, 0, 0), 100, gray()), still(v(-5000, 0, 0), 100, gray())];
    let bvh = Bvh::create_tree(&world, &vec![0]).unwrap();
    match bvh.nodes[bvh.root] {
        BvhNode::Internal { left, right, axis, .. } => {
            assert_eq!(axis, 0);
            assert!(matches!(bvh.nodes[left], BvhNode::Leaf { prim: 1, .. }));
            assert!(matches!(bvh.nodes[right], BvhNode::Leaf { prim: 0, .. }));
        }
        _ => panic!("root should be internal"),
    }
}

#[test]
fn five_spheres_split_two_and_three() {
    let world: Vec<Sphere> = (0..5).map(|k| still(v(0, 1000 * (4 - k), 0), 100, gray())).collect();
    let bvh = Bvh::create_tree(&world, &vec![1]).unwrap();
    match bvh.nodes[bvh.root] {
        BvhNode::Internal { left, axis, .. } => {
            assert_eq!(axis, 1);
            match bvh.nodes[left] {
                BvhNode::Internal { left: l, right: r, .. } => {
                    // the two lowest spheres (indices 4 and 3) go left
                    assert!(matches!(bvh.nodes[l], BvhNode::Leaf { prim: 4, .. }));
                    assert!(matches!(bvh.nodes[r], BvhNode::Leaf { prim: 3, .. }));
                }
                _ => panic!("left child should hold two spheres"),
            }
        }
        _ => panic!("root should be internal"),
    }
}
