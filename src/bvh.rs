use vstd::prelude::*;
use crate::aabb::Aabb;
use crate::hit::{POS_BOUND, DIR_BOUND, Ray, T_BOUND, holds_int_point, lemma_ball_in_box};
use crate::scene::Sphere;

verus! {

/// A node of the hierarchy, stored in an arena; children always sit at lower indices.
#[derive(Clone, Copy, Debug, PartialEq, Eq, Structural)]
pub enum BvhNode {
    Leaf { prim: usize, bbox: Aabb },
    Internal { left: usize, right: usize, axis: u8, bbox: Aabb },
}

/// A bounding-volume hierarchy over a list of spheres.
#[derive(Debug)]
pub struct Bvh {
    pub nodes: Vec<BvhNode>,
    pub root: usize,
}

/// Why a hierarchy could not be built.
#[derive(Clone, Copy, Debug, PartialEq, Eq, Structural)]
pub enum ConstructionError {
    /// There were no primitives.
    Empty,
}

/// A nearest hit: the index of the sphere and the step at which the ray meets it.
pub type HitRecord = (usize, i64);

pub open spec fn node_box(n: BvhNode) -> Aabb {
    match n {
        BvhNode::Leaf { bbox, .. } => bbox,
        BvhNode::Internal { bbox, .. } => bbox,
    }
}

pub open spec fn prims_valid(prims: Seq<Sphere>) -> bool {
    forall|i: int| 0 <= i < prims.len() ==> (#[trigger] prims[i]).valid()
}

/// Node `i` is well formed: a leaf's box encloses its sphere; an internal node's box
/// encloses both children, which sit at lower indices, its spheres are split on its
/// axis (every left sphere's box minimum is at most every right one's), and the left
/// child holds half of them, rounded down.
pub open spec fn node_wf(nodes: Seq<BvhNode>, prims: Seq<Sphere>, i: int) -> bool {
    match nodes[i] {
        BvhNode::Leaf { prim, bbox } => prim < prims.len() && prims[prim as int].box_spec().inside(
            bbox,
        ),
        BvhNode::Internal { left, right, axis, bbox } => {
            &&& left < i && right < i
            &&& node_box(nodes[left as int]).inside(bbox)
            &&& node_box(nodes[right as int]).inside(bbox)
            &&& axis < 3
            &&& forall|a: int, b: int|
                #[trigger] leaves(nodes, left as int).contains(a) && #[trigger] leaves(
                    nodes,
                    right as int,
                ).contains(b) ==> box_key(prims[a], axis) <= box_key(prims[b], axis)
            &&& leaf_count(nodes, left as int) == (leaf_count(nodes, left as int) + leaf_count(
                nodes,
                right as int,
            )) / 2
        },
    }
}

pub open spec fn nodes_wf(nodes: Seq<BvhNode>, prims: Seq<Sphere>) -> bool {
    forall|i: int| 0 <= i < nodes.len() ==> #[trigger] node_wf(nodes, prims, i)
}

/// The sphere indices held in the leaves under node `i`.
pub open spec fn leaves(nodes: Seq<BvhNode>, i: int) -> Set<int>
    decreases i,
{
    if i < 0 || i >= nodes.len() {
        Set::empty()
    } else {
        match nodes[i] {
            BvhNode::Leaf { prim, .. } => set![prim as int],
            BvhNode::Internal { left, right, .. } => if left < i && right < i {
                leaves(nodes, left as int) + leaves(nodes, right as int)
            } else {
                Set::empty()
            },
        }
    }
}

/// The number of leaves under node `i`.
pub open spec fn leaf_count(nodes: Seq<BvhNode>, i: int) -> int
    decreases i,
{
    if i < 0 || i >= nodes.len() {
        0
    } else {
        match nodes[i] {
            BvhNode::Leaf { .. } => 1,
            BvhNode::Internal { left, right, .. } => if left < i && right < i {
                leaf_count(nodes, left as int) + leaf_count(nodes, right as int)
            } else {
                0
            },
        }
    }
}

pub open spec fn all_indices(n: int) -> Set<int> {
    Set::new(|i: int| 0 <= i < n)
}

impl Bvh {
    /// Well formed over `prims`, with every sphere under the root.
    pub open spec fn wf(&self, prims: Seq<Sphere>) -> bool {
        &&& self.root < self.nodes.len()
        &&& nodes_wf(self.nodes@, prims)
        &&& leaves(self.nodes@, self.root as int) == all_indices(prims.len() as int)
    }
}

/// `r` is the nearest hit of the ray in `[t_min, t_max]` among the spheres of `set`:
/// none of them is met before it, none of lower index is met at the same step, and if
/// there is none, none is met at all.
pub open spec fn nearest(
    prims: Seq<Sphere>,
    set: Set<int>,
    ray: Ray,
    t_min: int,
    t_max: int,
    r: Option<HitRecord>,
) -> bool {
    match r {
        None => forall|j: int| #[trigger] set.contains(j) ==> prims[j].misses(ray, t_min, t_max),
        Some((i, t)) => {
            &&& set.contains(i as int)
            &&& prims[i as int].first_hit(ray, t_min, t_max, t as int)
            &&& forall|j: int, u: int|
                #[trigger] set.contains(j) && t_min <= u < t ==> !#[trigger] prims[j].inside_at(ray, u)
            &&& forall|j: int| #[trigger] set.contains(j) && j < i ==> !prims[j].inside_at(ray, t as int)
        },
    }
}

/// The box of the ray's segment over `[t_min, t_max]` overlaps `b` on every axis.
pub open spec fn segment_overlaps(b: Aabb, ray: Ray, t_min: int, t_max: int) -> bool {
    let p = ray.at(t_min);
    let q = ray.at(t_max);
    &&& overlaps_axis(p.0, q.0, b.minimum.x as int, b.maximum.x as int)
    &&& overlaps_axis(p.1, q.1, b.minimum.y as int, b.maximum.y as int)
    &&& overlaps_axis(p.2, q.2, b.minimum.z as int, b.maximum.z as int)
}

pub open spec fn overlaps_axis(p: int, q: int, lo: int, hi: int) -> bool {
    let a = if p <= q { p } else { q };
    let b = if p <= q { q } else { p };
    a <= hi && lo <= b
}


/// Every sphere under node `i` has its box inside the node's box.
proof fn lemma_leaf_box(nodes: Seq<BvhNode>, prims: Seq<Sphere>, i: int, j: int)
    requires
        nodes_wf(nodes, prims),
        0 <= i < nodes.len(),
        leaves(nodes, i).contains(j),
    ensures
        0 <= j < prims.len(),
        prims[j].box_spec().inside(node_box(nodes[i])),
    decreases i,
{
    assert(node_wf(nodes, prims, i));
    match nodes[i] {
        BvhNode::Leaf { prim, bbox } => {},
        BvhNode::Internal { left, right, bbox, .. } => {
            if leaves(nodes, left as int).contains(j) {
                lemma_leaf_box(nodes, prims, left as int, j);
            } else {
                lemma_leaf_box(nodes, prims, right as int, j);
            }
        },
    }
}

proof fn lemma_between(o: int, d: int, t0: int, t: int, t1: int)
    requires
        t0 <= t <= t1,
    ensures
        (o + t0 * d <= o + t * d <= o + t1 * d) || (o + t1 * d <= o + t * d <= o + t0 * d),
{
    if d >= 0 {
        assert(t0 * d <= t * d <= t1 * d) by (nonlinear_arith)
            requires t0 <= t <= t1, d >= 0;
    } else {
        assert(t1 * d <= t * d <= t0 * d) by (nonlinear_arith)
            requires t0 <= t <= t1, d < 0;
    }
}

/// If the ray is in box `b` at some step of `[t_min, t_max]`, the segment test passes:
/// pruning on it never loses a hit.
proof fn lemma_segment_sound(b: Aabb, ray: Ray, t_min: int, t: int, t_max: int)
    requires
        t_min <= t <= t_max,
        holds_int_point(b, ray.at(t)),
    ensures
        segment_overlaps(b, ray, t_min, t_max),
{
    lemma_between(ray.origin.x as int, ray.direction.x as int, t_min, t, t_max);
    lemma_between(ray.origin.y as int, ray.direction.y as int, t_min, t, t_max);
    lemma_between(ray.origin.z as int, ray.direction.z as int, t_min, t, t_max);
}

fn point_axis(o: i64, d: i64, t: i64) -> (p: i64)
    requires
        -POS_BOUND <= o <= POS_BOUND,
        -DIR_BOUND <= d <= DIR_BOUND,
        -1 <= t <= T_BOUND,
    ensures
        p == o + t * d,
{
    proof {
        assert(-16_000_000_000 <= t * d <= 16_000_000_000) by (nonlinear_arith)
            requires -1 <= t <= T_BOUND, -DIR_BOUND <= d <= DIR_BOUND;
    }
    o + t * d
}

fn axis_overlaps(p: i64, q: i64, lo: i64, hi: i64) -> (r: bool)
    ensures
        r == overlaps_axis(p as int, q as int, lo as int, hi as int),
{
    let a = if p <= q { p } else { q };
    let b = if p <= q { q } else { p };
    a <= hi && lo <= b
}

/// The slab-style box test: whether the ray's segment over `[t_min, t_max]` overlaps
/// the box on all three axes.
pub fn box_test(b: &Aabb, ray: &Ray, t_min: i64, t_max: i64) -> (r: bool)
    requires
        ray.valid(),
        -1 <= t_min,
        -1 <= t_max <= T_BOUND,
        t_min <= T_BOUND,
    ensures
        r == segment_overlaps(*b, *ray, t_min as int, t_max as int),
{
    let px = point_axis(ray.origin.x, ray.direction.x, t_min);
    let py = point_axis(ray.origin.y, ray.direction.y, t_min);
    let pz = point_axis(ray.origin.z, ray.direction.z, t_min);
    let qx = point_axis(ray.origin.x, ray.direction.x, t_max);
    let qy = point_axis(ray.origin.y, ray.direction.y, t_max);
    let qz = point_axis(ray.origin.z, ray.direction.z, t_max);
    axis_overlaps(px, qx, b.minimum.x, b.maximum.x) && axis_overlaps(py, qy, b.minimum.y, b.maximum.y)
        && axis_overlaps(pz, qz, b.minimum.z, b.maximum.z)
}

impl Bvh {
    fn hit_node(
        &self,
        prims: &Vec<Sphere>,
        i: usize,
        ray: &Ray,
        t_min: i64,
        t_max: i64,
    ) -> (r: Option<HitRecord>)
        requires
            i < self.nodes.len(),
            nodes_wf(self.nodes@, prims@),
            prims_valid(prims@),
            ray.valid(),
            0 <= t_min,
            -1 <= t_max <= T_BOUND,
        ensures
            nearest(prims@, leaves(self.nodes@, i as int), *ray, t_min as int, t_max as int, r),
        decreases i,
    {
        proof {
            assert(node_wf(self.nodes@, prims@, i as int));
        }
        match self.nodes[i] {
            BvhNode::Leaf { prim, bbox } => {
                proof {
                    assert(prims@[prim as int].valid());
                }
                match prims[prim].hit(ray, t_min, t_max) {
                    Some(t) => Some((prim, t)),
                    None => None,
                }
            },
            BvhNode::Internal { left, right, bbox, .. } => {
                if t_min > t_max || !box_test(&bbox, ray, t_min, t_max) {
                    proof {
                        let set = leaves(self.nodes@, i as int);
                        assert forall|j: int| #[trigger] set.contains(j) implies prims@[j].misses(
                            *ray,
                            t_min as int,
                            t_max as int,
                        ) by {
                            lemma_leaf_box(self.nodes@, prims@, i as int, j);
                            assert forall|u: int| t_min <= u <= t_max implies !#[trigger] prims@[j].inside_at(
                                *ray,
                                u,
                            ) by {
                                if prims@[j].inside_at(*ray, u) {
                                    assert(prims@[j].valid());
                                    lemma_ball_in_box(prims@[j], *ray, u);
                                    lemma_segment_sound(bbox, *ray, t_min as int, u, t_max as int);
                                }
                            }
                        }
                    }
                    return None;
                }
                let hl = self.hit_node(prims, left, ray, t_min, t_max);
                match hl {
                    Some((pl, tl)) => {
                        let hr = self.hit_node(prims, right, ray, t_min, tl);
                        match hr {
                            Some((pr, tr)) => {
                                if tr < tl || pr < pl {
                                    Some((pr, tr))
                                } else {
                                    Some((pl, tl))
                                }
                            },
                            None => Some((pl, tl)),
                        }
                    },
                    None => self.hit_node(prims, right, ray, t_min, t_max),
                }
            },
        }
    }

    /// The nearest hit of the ray in `[t_min, t_max]` among all the spheres.
    pub fn intersect(&self, prims: &Vec<Sphere>, ray: &Ray, t_min: i64, t_max: i64) -> (r: Option<
        HitRecord,
    >)
        requires
            self.wf(prims@),
            prims_valid(prims@),
            ray.valid(),
            0 <= t_min,
            t_max <= T_BOUND,
        ensures
            nearest(prims@, all_indices(prims.len() as int), *ray, t_min as int, t_max as int, r),
    {
        if t_max < 0 {
            return None;
        }
        self.hit_node(prims, self.root, ray, t_min, t_max)
    }
}

/// The nearest hit by checking every sphere in turn.
pub fn intersect_linear(prims: &Vec<Sphere>, ray: &Ray, t_min: i64, t_max: i64) -> (r: Option<
    HitRecord,
>)
    requires
        prims_valid(prims@),
        ray.valid(),
        0 <= t_min,
        t_max <= T_BOUND,
    ensures
        nearest(prims@, all_indices(prims.len() as int), *ray, t_min as int, t_max as int, r),
{
    let mut best: Option<HitRecord> = None;
    let mut k: usize = 0;
    while k < prims.len()
        invariant
            0 <= k <= prims.len(),
            prims_valid(prims@),
            ray.valid(),
            0 <= t_min,
            t_max <= T_BOUND,
            nearest(prims@, all_indices(k as int), *ray, t_min as int, t_max as int, best),
        decreases prims.len() - k,
    {
        let limit: i64 = match best {
            Some((_, t)) => t - 1,
            None => t_max,
        };
        proof {
            assert forall|j: int| #[trigger] all_indices(k as int).contains(j) implies j < k by {}
        }
        proof {
            assert(prims@[k as int].valid());
        }
        let h = prims[k].hit(ray, t_min, limit);
        let ghost old_best = best;
        match h {
            Some(t) => {
                best = Some((k, t));
            },
            None => {},
        }
        k = k + 1;
        proof {
            let prev = all_indices((k - 1) as int);
            let set = all_indices(k as int);
            assert(set =~= prev.insert((k - 1) as int));
        }
    }
    proof {
        assert(all_indices(k as int) =~= all_indices(prims.len() as int));
    }
    best
}

/// Two nearest-hit answers over the same spheres are equal.
pub proof fn lemma_nearest_unique(
    prims: Seq<Sphere>,
    set: Set<int>,
    ray: Ray,
    t_min: int,
    t_max: int,
    r1: Option<HitRecord>,
    r2: Option<HitRecord>,
)
    requires
        nearest(prims, set, ray, t_min, t_max, r1),
        nearest(prims, set, ray, t_min, t_max, r2),
    ensures
        r1 == r2,
{
    match (r1, r2) {
        (Some((i1, t1)), Some((i2, t2))) => {
            assert(set.contains(i1 as int));
            assert(set.contains(i2 as int));
            if t1 < t2 {
                assert(!prims[i1 as int].inside_at(ray, t1 as int));
            }
            if t2 < t1 {
                assert(!prims[i2 as int].inside_at(ray, t2 as int));
            }
            if i1 < i2 {
                assert(!prims[i1 as int].inside_at(ray, t2 as int));
            }
            if i2 < i1 {
                assert(!prims[i2 as int].inside_at(ray, t1 as int));
            }
        },
        (Some((i1, t1)), None) => {
            assert(set.contains(i1 as int));
        },
        (None, Some((i2, t2))) => {
            assert(set.contains(i2 as int));
        },
        (None, None) => {},
    }
}

/// The hierarchy's answer matches a linear scan of every sphere: the same sphere (the
/// lowest index among ties) at the same step, or no hit from either.
pub proof fn lemma_bvh_matches_linear(
    bvh: &Bvh,
    prims: Seq<Sphere>,
    ray: Ray,
    t_min: int,
    t_max: int,
    from_bvh: Option<HitRecord>,
    from_scan: Option<HitRecord>,
)
    requires
        bvh.wf(prims),
        nearest(prims, all_indices(prims.len() as int), ray, t_min, t_max, from_bvh),
        nearest(prims, all_indices(prims.len() as int), ray, t_min, t_max, from_scan),
    ensures
        from_bvh == from_scan,
{
    lemma_nearest_unique(prims, all_indices(prims.len() as int), ray, t_min, t_max, from_bvh, from_scan);
}


/// The coordinate on `axis` (0, 1 or 2 for x, y, z) of the minimum corner of a sphere's box.
pub open spec fn box_key(s: Sphere, axis: u8) -> i64 {
    let b = s.box_spec();
    if axis == 0 {
        b.minimum.x
    } else if axis == 1 {
        b.minimum.y
    } else {
        b.minimum.z
    }
}

pub open spec fn same_elements(a: Seq<usize>, b: Seq<usize>) -> bool {
    forall|x: usize| a.contains(x) <==> b.contains(x)
}

pub open spec fn indices_ok(items: Seq<usize>, n: int) -> bool {
    forall|k: int| 0 <= k < items.len() ==> (#[trigger] items[k]) < n
}

pub open spec fn sorted_by_key(prims: Seq<Sphere>, items: Seq<usize>, axis: u8) -> bool {
    forall|a: int, b: int|
        0 <= a < b < items.len() ==> box_key(prims[#[trigger] items[a] as int], axis) <= box_key(
            prims[#[trigger] items[b] as int],
            axis,
        )
}

pub open spec fn item_set(items: Seq<usize>) -> Set<int> {
    Set::new(|i: int| exists|k: int| 0 <= k < items.len() && items[k] as int == i)
}

fn key_of(prims: &Vec<Sphere>, item: usize, axis: u8) -> (k: i64)
    requires
        item < prims.len(),
        prims_valid(prims@),
    ensures
        k == box_key(prims@[item as int], axis),
{
    proof {
        assert(prims@[item as int].valid());
    }
    let b = prims[item].bounding_box();
    if axis == 0 {
        b.minimum.x
    } else if axis == 1 {
        b.minimum.y
    } else {
        b.minimum.z
    }
}

proof fn lemma_insert_same(before: Seq<usize>, pos: int, x: usize, prefix: Seq<usize>)
    requires
        0 <= pos <= before.len(),
        same_elements(before, prefix),
    ensures
        same_elements(before.insert(pos, x), prefix.push(x)),
{
    let after = before.insert(pos, x);
    let next = prefix.push(x);
    assert forall|y: usize| after.contains(y) <==> next.contains(y) by {
        if after.contains(y) {
            let w = choose|w: int| 0 <= w < after.len() && after[w] == y;
            if w != pos {
                let w2 = if w < pos { w } else { w - 1 };
                assert(before[w2] == y);
                assert(prefix.contains(y));
                let v = choose|v: int| 0 <= v < prefix.len() && prefix[v] == y;
                assert(next[v] == y);
            } else {
                assert(next[prefix.len() as int] == y);
            }
        }
        if next.contains(y) {
            let v = choose|v: int| 0 <= v < next.len() && next[v] == y;
            if v < prefix.len() {
                assert(prefix[v] == y);
                assert(before.contains(y));
                let w = choose|w: int| 0 <= w < before.len() && before[w] == y;
                if w < pos {
                    assert(after[w] == y);
                } else {
                    assert(after[w + 1] == y);
                }
            } else {
                assert(after[pos] == y);
            }
        }
    }
}

proof fn lemma_insert_sorted(prims: Seq<Sphere>, before: Seq<usize>, pos: int, x: usize, axis: u8)
    requires
        0 <= pos <= before.len(),
        sorted_by_key(prims, before, axis),
        forall|a: int| 0 <= a < pos ==> box_key(prims[#[trigger] before[a] as int], axis) <= box_key(
            prims[x as int],
            axis,
        ),
        forall|b: int| pos <= b < before.len() ==> box_key(prims[#[trigger] before[b] as int], axis) > box_key(
            prims[x as int],
            axis,
        ),
    ensures
        sorted_by_key(prims, before.insert(pos, x), axis),
{
    let after = before.insert(pos, x);
    assert forall|a: int, b: int| 0 <= a < b < after.len() implies box_key(
        prims[#[trigger] after[a] as int],
        axis,
    ) <= box_key(prims[#[trigger] after[b] as int], axis) by {
        if a < pos && b < pos {
            assert(after[a] == before[a] && after[b] == before[b]);
        } else if a < pos && b == pos {
            assert(after[a] == before[a]);
        } else if a < pos {
            assert(after[a] == before[a] && after[b] == before[b - 1]);
        } else if a == pos {
            assert(after[b] == before[b - 1]);
        } else {
            assert(after[a] == before[a - 1] && after[b] == before[b - 1]);
        }
    }
}

/// Orders `items` by the minimum coordinate of their spheres' boxes on `axis`
/// (stable insertion sort).
fn sort_by_axis(prims: &Vec<Sphere>, items: &Vec<usize>, axis: u8) -> (sorted: Vec<usize>)
    requires
        prims_valid(prims@),
        indices_ok(items@, prims.len() as int),
    ensures
        sorted.len() == items.len(),
        same_elements(sorted@, items@),
        indices_ok(sorted@, prims.len() as int),
        sorted_by_key(prims@, sorted@, axis),
{
    let mut sorted: Vec<usize> = Vec::new();
    let mut k: usize = 0;
    while k < items.len()
        invariant
            0 <= k <= items.len(),
            prims_valid(prims@),
            indices_ok(items@, prims.len() as int),
            sorted.len() == k,
            same_elements(sorted@, items@.subrange(0, k as int)),
            indices_ok(sorted@, prims.len() as int),
            sorted_by_key(prims@, sorted@, axis),
        decreases items.len() - k,
    {
        let x = items[k];
        let kx = key_of(prims, x, axis);
        let mut pos: usize = 0;
        while pos < sorted.len() && key_of(prims, sorted[pos], axis) <= kx
            invariant
                0 <= pos <= sorted.len(),
                prims_valid(prims@),
                indices_ok(sorted@, prims.len() as int),
                x < prims.len(),
                kx == box_key(prims@[x as int], axis),
                forall|a: int| 0 <= a < pos ==> box_key(prims@[#[trigger] sorted@[a] as int], axis) <= kx,
            decreases sorted.len() - pos,
        {
            pos = pos + 1;
        }
        let ghost before = sorted@;
        proof {
            if pos < sorted.len() {
                assert(box_key(prims@[sorted@[pos as int] as int], axis) > kx);
                assert forall|b: int| pos <= b < sorted.len() implies box_key(
                    prims@[#[trigger] sorted@[b] as int],
                    axis,
                ) > kx by {
                    if b > pos {
                        assert(box_key(prims@[sorted@[pos as int] as int], axis) <= box_key(
                            prims@[sorted@[b] as int],
                            axis,
                        ));
                    }
                }
            }
        }
        sorted.insert(pos, x);
        proof {
            let prefix = items@.subrange(0, k as int);
            assert(items@.subrange(0, k + 1) =~= prefix.push(x));
            lemma_insert_same(before, pos as int, x, prefix);
            lemma_insert_sorted(prims@, before, pos as int, x, axis);
            assert(sorted@ == before.insert(pos as int, x));
        }
        k = k + 1;
    }
    proof {
        assert(items@.subrange(0, k as int) =~= items@);
    }
    sorted
}


/// Appending nodes leaves the existing nodes' leaves and well-formedness unchanged.
proof fn lemma_extend(nodes1: Seq<BvhNode>, nodes2: Seq<BvhNode>, prims: Seq<Sphere>, i: int)
    requires
        nodes1.len() <= nodes2.len(),
        nodes2.subrange(0, nodes1.len() as int) == nodes1,
        0 <= i < nodes1.len(),
    ensures
        leaves(nodes2, i) == leaves(nodes1, i),
        leaf_count(nodes2, i) == leaf_count(nodes1, i),
        node_wf(nodes1, prims, i) ==> node_wf(nodes2, prims, i),
    decreases i,
{
    assert(nodes2[i] == nodes1[i]);
    match nodes1[i] {
        BvhNode::Leaf { .. } => {},
        BvhNode::Internal { left, right, .. } => {
            if left < i && right < i {
                assert(nodes2[left as int] == nodes1[left as int]);
                assert(nodes2[right as int] == nodes1[right as int]);
                lemma_extend(nodes1, nodes2, prims, left as int);
                lemma_extend(nodes1, nodes2, prims, right as int);
            }
        },
    }
}

proof fn lemma_extend_all(nodes1: Seq<BvhNode>, nodes2: Seq<BvhNode>, prims: Seq<Sphere>)
    requires
        nodes1.len() <= nodes2.len(),
        nodes2.subrange(0, nodes1.len() as int) == nodes1,
        nodes_wf(nodes1, prims),
    ensures
        forall|i: int| 0 <= i < nodes1.len() ==> #[trigger] node_wf(nodes2, prims, i),
        forall|i: int| 0 <= i < nodes1.len() ==> #[trigger] leaves(nodes2, i) == leaves(nodes1, i),
        forall|i: int| 0 <= i < nodes1.len() ==> #[trigger] leaf_count(nodes2, i) == leaf_count(nodes1, i),
{
    assert forall|i: int| 0 <= i < nodes1.len() implies #[trigger] node_wf(nodes2, prims, i) by {
        assert(node_wf(nodes1, prims, i));
        lemma_extend(nodes1, nodes2, prims, i);
    }
    assert forall|i: int| 0 <= i < nodes1.len() implies #[trigger] leaves(nodes2, i) == leaves(
        nodes1,
        i,
    ) by {
        lemma_extend(nodes1, nodes2, prims, i);
    }
    assert forall|i: int| 0 <= i < nodes1.len() implies #[trigger] leaf_count(nodes2, i) == leaf_count(
        nodes1,
        i,
    ) by {
        lemma_extend(nodes1, nodes2, prims, i);
    }
}

fn copy_range(items: &Vec<usize>, lo: usize, hi: usize) -> (r: Vec<usize>)
    requires
        lo <= hi <= items.len(),
    ensures
        r@ == items@.subrange(lo as int, hi as int),
{
    let mut r: Vec<usize> = Vec::new();
    let mut k: usize = lo;
    while k < hi
        invariant
            lo <= k <= hi <= items.len(),
            r@ == items@.subrange(lo as int, k as int),
        decreases hi - k,
    {
        r.push(items[k]);
        k = k + 1;
        proof {
            assert(r@ =~= items@.subrange(lo as int, k as int));
        }
    }
    r
}

proof fn lemma_split_set(sorted: Seq<usize>, items: Seq<usize>, mid: int)
    requires
        0 <= mid <= sorted.len(),
        same_elements(sorted, items),
    ensures
        item_set(items) == item_set(sorted.subrange(0, mid)) + item_set(
            sorted.subrange(mid, sorted.len() as int),
        ),
{
    let l = sorted.subrange(0, mid);
    let r = sorted.subrange(mid, sorted.len() as int);
    assert forall|i: int| item_set(items).contains(i) <==> (item_set(l) + item_set(r)).contains(i) by {
        if item_set(items).contains(i) {
            let k = choose|k: int| 0 <= k < items.len() && items[k] as int == i;
            assert(items.contains(items[k]));
            assert(sorted.contains(items[k]));
            let w = choose|w: int| 0 <= w < sorted.len() && sorted[w] == items[k];
            if w < mid {
                assert(l[w] == sorted[w]);
            } else {
                assert(r[w - mid] == sorted[w]);
            }
        }
        if item_set(l).contains(i) {
            let k = choose|k: int| 0 <= k < l.len() && l[k] as int == i;
            assert(sorted.contains(l[k]));
            assert(items.contains(l[k]));
        }
        if item_set(r).contains(i) {
            let k = choose|k: int| 0 <= k < r.len() && r[k] as int == i;
            assert(sorted[k + mid] == r[k]);
            assert(sorted.contains(r[k]));
            assert(items.contains(r[k]));
        }
    }
    assert(item_set(items) =~= item_set(l) + item_set(r));
}

/// Builds the subtree over `items` (at least one), appending its nodes to `nodes`;
/// returns the index of its root and the root's box.
fn build_node(
    prims: &Vec<Sphere>,
    items: &Vec<usize>,
    axis_draws: &Vec<u8>,
    nodes: &mut Vec<BvhNode>,
) -> (r: (usize, Aabb))
    requires
        items.len() >= 1,
        axis_draws.len() >= 1,
        prims_valid(prims@),
        indices_ok(items@, prims.len() as int),
        nodes_wf(old(nodes)@, prims@),
        old(nodes).len() + 2 * items.len() <= usize::MAX,
    ensures
        old(nodes).len() <= r.0 < final(nodes).len(),
        final(nodes).len() + 1 <= old(nodes).len() + 2 * items.len(),
        final(nodes)@.subrange(0, old(nodes).len() as int) == old(nodes)@,
        nodes_wf(final(nodes)@, prims@),
        leaves(final(nodes)@, r.0 as int) == item_set(items@),
        leaf_count(final(nodes)@, r.0 as int) == items.len(),
        node_box(final(nodes)@[r.0 as int]) == r.1,
    decreases items.len(),
{
    let ghost start = nodes@;
    if items.len() == 1 {
        let prim = items[0];
        proof {
            assert(prims@[prim as int].valid());
        }
        let bbox = prims[prim].bounding_box();
        nodes.push(BvhNode::Leaf { prim, bbox });
        let idx = nodes.len() - 1;
        proof {
            assert(nodes@.subrange(0, start.len() as int) =~= start);
            lemma_extend_all(start, nodes@, prims@);
            assert(node_wf(nodes@, prims@, idx as int));
            assert(item_set(items@) =~= set![prim as int]);
            assert(nodes@.subrange(0, start.len() as int) =~= start);
        }
        return (idx, bbox);
    }
    let axis: u8 = axis_draws[nodes.len() % axis_draws.len()] % 3;
    let sorted = sort_by_axis(prims, items, axis);
    let mid: usize = sorted.len() / 2;
    let left_items = copy_range(&sorted, 0, mid);
    let right_items = copy_range(&sorted, mid, sorted.len());
    proof {
        lemma_split_set(sorted@, items@, mid as int);
    }
    let (left, lbox) = build_node(prims, &left_items, axis_draws, nodes);
    let ghost mid_nodes = nodes@;
    let (right, rbox) = build_node(prims, &right_items, axis_draws, nodes);
    let ghost end_nodes = nodes@;
    let bbox = Aabb::union(&lbox, &rbox);
    nodes.push(BvhNode::Internal { left, right, axis, bbox });
    let idx = nodes.len() - 1;
    proof {
        assert(end_nodes.subrange(0, mid_nodes.len() as int) == mid_nodes);
        lemma_extend(mid_nodes, end_nodes, prims@, left as int);
        assert(end_nodes.subrange(0, start.len() as int) =~= start) by {
            assert(mid_nodes.subrange(0, start.len() as int) == start);
        }
        assert(nodes@.subrange(0, end_nodes.len() as int) =~= end_nodes);
        lemma_extend_all(end_nodes, nodes@, prims@);
        assert(nodes@.subrange(0, start.len() as int) =~= start);
        assert(nodes@[left as int] == end_nodes[left as int]);
        assert(nodes@[right as int] == end_nodes[right as int]);
        assert(end_nodes[left as int] == mid_nodes[left as int]);
        assert(leaf_count(nodes@, left as int) == leaf_count(end_nodes, left as int));
        assert(leaf_count(nodes@, right as int) == leaf_count(end_nodes, right as int));
        assert(leaves(nodes@, left as int) == leaves(end_nodes, left as int));
        assert(leaves(nodes@, right as int) == leaves(end_nodes, right as int));
        assert(leaves(nodes@, left as int) == item_set(left_items@));
        assert(leaves(nodes@, right as int) == item_set(right_items@));
        assert forall|a: int, b: int|
            #[trigger] leaves(nodes@, left as int).contains(a) && #[trigger] leaves(
                nodes@,
                right as int,
            ).contains(b) implies box_key(prims@[a], axis) <= box_key(prims@[b], axis) by {
            let ka = choose|k: int| 0 <= k < left_items@.len() && left_items@[k] as int == a;
            let kb = choose|k: int| 0 <= k < right_items@.len() && right_items@[k] as int == b;
            assert(left_items@[ka] == sorted@[ka]);
            assert(right_items@[kb] == sorted@[kb + mid]);
            assert(box_key(prims@[sorted@[ka] as int], axis) <= box_key(prims@[sorted@[kb + mid] as int], axis));
        }
        assert(node_wf(nodes@, prims@, idx as int));
        assert forall|i: int| 0 <= i < nodes@.len() implies #[trigger] node_wf(nodes@, prims@, i) by {
            if i < end_nodes.len() {
                assert(node_wf(end_nodes, prims@, i));
            }
        }
        assert(leaves(nodes@, left as int) == leaves(end_nodes, left as int));
        assert(leaves(nodes@, right as int) == leaves(end_nodes, right as int));
        assert(leaf_count(nodes@, left as int) == leaf_count(end_nodes, left as int));
        assert(leaf_count(nodes@, right as int) == leaf_count(end_nodes, right as int));
    }
    (idx, bbox)
}

impl Bvh {
    /// Builds the hierarchy over all of `prims`. Each internal node sorts its spheres by
    /// their boxes' minimum on an axis drawn from `axis_draws` and splits at the
    /// midpoint. Fails on an empty list.
    pub fn create_tree(prims: &Vec<Sphere>, axis_draws: &Vec<u8>) -> (r: Result<Bvh, ConstructionError>)
        requires
            prims_valid(prims@),
            axis_draws.len() >= 1,
            prims.len() <= 1_000_000,
        ensures
            r is Err <==> prims.len() == 0,
            r matches Ok(bvh) ==> bvh.wf(prims@),
    {
        if prims.len() == 0 {
            return Err(ConstructionError::Empty);
        }
        let mut items: Vec<usize> = Vec::new();
        let mut k: usize = 0;
        while k < prims.len()
            invariant
                0 <= k <= prims.len(),
                items@.len() == k,
                forall|j: int| 0 <= j < k ==> items@[j] == j,
            decreases prims.len() - k,
        {
            items.push(k);
            k = k + 1;
        }
        let mut nodes: Vec<BvhNode> = Vec::new();
        let (root, _) = build_node(prims, &items, axis_draws, &mut nodes);
        proof {
            assert(item_set(items@) =~= all_indices(prims.len() as int)) by {
                assert forall|i: int| 0 <= i < prims.len() implies item_set(items@).contains(i) by {
                    assert(items@[i] as int == i);
                }
            }
        }
        Ok(Bvh { nodes, root })
    }
}

} // verus!
