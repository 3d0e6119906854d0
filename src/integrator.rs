use vstd::prelude::*;
use crate::color::{Color, Rgb8, background, background_spec, mul_channel, rgb};
use crate::vector::SCALE;

verus! {

/// What one bounce of a path resolved to, as the scene and the material reported it.
#[derive(Clone, Copy, Debug, PartialEq, Eq, Structural)]
pub enum Bounce {
    /// The ray left the scene; `dir_y` is the vertical component of its unit direction.
    Miss { dir_y: i64 },
    /// The ray hit a surface that scattered it, tinting what comes back by `attenuation`.
    Scatter { attenuation: Color },
    /// The ray hit a surface that absorbed it; `emitted` is the surface's own radiance.
    Absorb { emitted: Color },
}

impl Bounce {
    pub open spec fn valid(self) -> bool {
        match self {
            Bounce::Miss { dir_y } => -SCALE <= dir_y <= SCALE,
            Bounce::Scatter { attenuation } => attenuation.valid(),
            Bounce::Absorb { emitted } => emitted.valid(),
        }
    }
}

pub open spec fn path_valid(path: Seq<Bounce>) -> bool {
    forall|i: int| 0 <= i < path.len() ==> #[trigger] path[i].valid()
}

/// The color carried back along `path` from its bounce `i` on, with `depth` bounces
/// of budget left: black once the budget is spent or the path ends, the sky gradient
/// on a miss, the emitted radiance on absorption, and the attenuated color of the
/// rest of the path on a scatter.
pub open spec fn path_color(path: Seq<Bounce>, i: int, depth: nat) -> Color
    decreases depth,
{
    if depth == 0 || i < 0 || i >= path.len() {
        rgb(0, 0, 0)
    } else {
        match path[i] {
            Bounce::Miss { dir_y } => background_spec(dir_y as int),
            Bounce::Absorb { emitted } => emitted,
            Bounce::Scatter { attenuation } => {
                let rest = path_color(path, i + 1, (depth - 1) as nat);
                rgb(
                    mul_channel(attenuation.r, rest.r),
                    mul_channel(attenuation.g, rest.g),
                    mul_channel(attenuation.b, rest.b),
                )
            },
        }
    }
}

proof fn lemma_path_color_valid(path: Seq<Bounce>, i: int, depth: nat)
    requires
        path_valid(path),
    ensures
        path_color(path, i, depth).valid(),
    decreases depth,
{
    if depth == 0 || i < 0 || i >= path.len() {
    } else {
        assert(path[i].valid());
        match path[i] {
            Bounce::Miss { dir_y } => {
                crate::color::lemma_background_valid(dir_y as int);
            },
            Bounce::Absorb { emitted } => {},
            Bounce::Scatter { attenuation } => {
                lemma_path_color_valid(path, i + 1, (depth - 1) as nat);
                let rest = path_color(path, i + 1, (depth - 1) as nat);
                crate::color::lemma_mul_valid(attenuation, rest);
            },
        }
    }
}

fn color_from(path: &Vec<Bounce>, i: usize, depth: u32) -> (c: Color)
    requires
        path_valid(path@),
    ensures
        c == path_color(path@, i as int, depth as nat),
        c.valid(),
    decreases depth,
{
    proof {
        lemma_path_color_valid(path@, i as int, depth as nat);
    }
    if depth == 0 || i >= path.len() {
        return Color::black();
    }
    proof {
        assert(path@[i as int].valid());
    }
    match path[i] {
        Bounce::Miss { dir_y } => background(dir_y),
        Bounce::Absorb { emitted } => emitted,
        Bounce::Scatter { attenuation } => {
            let rest = color_from(path, i + 1, depth - 1);
            attenuation.mul(rest)
        },
    }
}

/// The color a camera ray brings back, given the bounces its path resolved to and the
/// budget of bounces (`depth`) it may still take.
pub fn ray_color(path: &Vec<Bounce>, depth: u32) -> (c: Color)
    requires
        path_valid(path@),
    ensures
        c == path_color(path@, 0, depth as nat),
        c.valid(),
{
    color_from(path, 0, depth)
}

/// With no bounce budget left, every path is black, whatever it would have met.
pub proof fn lemma_no_budget_is_black(path: Seq<Bounce>)
    ensures
        path_color(path, 0, 0) == rgb(0, 0, 0),
{
}

/// A ray that leaves the scene at once returns exactly the sky color going straight
/// up and exactly white going straight down, with any positive budget.
pub proof fn lemma_miss_straight_up_or_down(depth: nat)
    requires
        depth > 0,
    ensures
        path_color(seq![Bounce::Miss { dir_y: SCALE }], 0, depth) == rgb(500, 700, 1000),
        path_color(seq![Bounce::Miss { dir_y: -1000i64 }], 0, depth) == rgb(1000, 1000, 1000),
{
    crate::color::lemma_background_endpoints();
}

} // verus!
