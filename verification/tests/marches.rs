//! Rays driven through the traversal machines: the geometry is done here in
//! floating point, every decision by the library.

use glam::DVec3;
use voxel_mip::fixtures::{Checkerboard, Empty, OctantFractal, SingleVoxel, Solid};
use voxel_mip::measure::{per_level_footprint, RayTally};
use voxel_mip::mip::{BrickGrid, BrickMarch};
use voxel_mip::oracle::FieldMarch;
use voxel_mip::traverse::{frame_cell_size, nearest_axis, Request, Traversal, Walk};
use voxel_mip::{
    NodeLayout, OccupancyField, Resolution, SchoolBBuffer, SparseTree, TraversalStats, VoxelCoord,
};

#[derive(Debug, Clone, Copy)]
struct Ray {
    origin: DVec3,
    dir: DVec3,
}

impl Ray {
    fn new(origin: DVec3, dir: DVec3) -> Self {
        Self { origin, dir }
    }
}

#[derive(Debug, Clone, Copy, PartialEq)]
struct Hit {
    voxel: VoxelCoord,
    t_enter: f64,
}

fn res(n: u32) -> Resolution {
    Resolution::new(n).unwrap()
}

fn splitmix64(state: &mut u64) -> u64 {
    *state = state.wrapping_add(0x9E37_79B9_7F4A_7C15);
    let mut z = *state;
    z = (z ^ (z >> 30)).wrapping_mul(0xBF58_476D_1CE4_E5B9);
    z = (z ^ (z >> 27)).wrapping_mul(0x94D0_49BB_1331_11EB);
    z ^ (z >> 31)
}

fn unit(state: &mut u64) -> f64 {
    (splitmix64(state) >> 11) as f64 / (1u64 << 53) as f64
}

fn corner(c: VoxelCoord) -> DVec3 {
    DVec3::new(f64::from(c.x), f64::from(c.y), f64::from(c.z))
}

fn ray_aabb(ray: &Ray, lo: DVec3, hi: DVec3) -> Option<(f64, f64)> {
    let (o, d) = (ray.origin.to_array(), ray.dir.to_array());
    let (lo, hi) = (lo.to_array(), hi.to_array());
    let mut near = f64::NEG_INFINITY;
    let mut far = f64::INFINITY;
    for a in 0..3 {
        if d[a] == 0.0 {
            if o[a] < lo[a] || o[a] > hi[a] {
                return None;
            }
        } else {
            let inv = 1.0 / d[a];
            let (t1, t2) = ((lo[a] - o[a]) * inv, (hi[a] - o[a]) * inv);
            near = near.max(t1.min(t2));
            far = far.min(t1.max(t2));
            if near > far {
                return None;
            }
        }
    }
    Some((near, far))
}

/// The parameters of one walk along the ray.
#[derive(Debug, Clone, Copy)]
struct Clock {
    t_max: [f64; 3],
    t_delta: [f64; 3],
    t_entry: f64,
}

impl Clock {
    fn enter(
        ray: &Ray,
        origin: VoxelCoord,
        dim: u32,
        cell_size: u32,
        t: f64,
    ) -> (Self, [u32; 3], [i8; 3]) {
        let (o, d) = (ray.origin.to_array(), ray.dir.to_array());
        let (base, size) = (corner(origin).to_array(), f64::from(cell_size));
        let mut clock = Clock { t_max: [f64::INFINITY; 3], t_delta: [f64::INFINITY; 3], t_entry: t };
        let (mut cell, mut dir) = ([0u32; 3], [0i8; 3]);
        for a in 0..3 {
            let entry = o[a] + t * d[a];
            let idx = ((entry - base[a]) / size).floor().clamp(0.0, f64::from(dim - 1)) as u32;
            cell[a] = idx;
            if d[a] > 0.0 {
                dir[a] = 1;
                let next = base[a] + (f64::from(idx) + 1.0) * size;
                clock.t_max[a] = t + (next - entry) / d[a];
                clock.t_delta[a] = size / d[a];
            } else if d[a] < 0.0 {
                dir[a] = -1;
                let next = base[a] + f64::from(idx) * size;
                clock.t_max[a] = t + (next - entry) / d[a];
                clock.t_delta[a] = -size / d[a];
            }
        }
        (clock, cell, dir)
    }

    fn axis(&self) -> Option<usize> {
        let t = self.t_max;
        let a = nearest_axis(t[1] < t[0], t[2] < t[0], t[2] < t[1]);
        if t[a].is_finite() {
            Some(a)
        } else {
            None
        }
    }

    fn advance(&mut self, a: usize) {
        self.t_entry = self.t_max[a];
        self.t_max[a] += self.t_delta[a];
    }
}

fn grid_entry(ray: &Ray, n: u32) -> Option<f64> {
    let (t0, t1) = ray_aabb(ray, DVec3::ZERO, DVec3::splat(f64::from(n)))?;
    if t1 < 0.0 {
        return None;
    }
    Some(t0.max(0.0))
}

fn traverse_counted<L: NodeLayout>(layout: &L, ray: &Ray) -> (Option<Hit>, TraversalStats) {
    let n = layout.resolution().voxels_per_axis();
    let Some(t_grid) = grid_entry(ray, n) else {
        return (None, TraversalStats::default());
    };
    let (mut t, mut request) = Traversal::start(layout);
    let mut clocks: Vec<Clock> = Vec::new();
    loop {
        match request {
            Request::Enter { origin, dim, cell_size } => {
                let at = clocks.last().map_or(t_grid, |c| c.t_entry);
                let (clock, cell, dir) = Clock::enter(ray, origin, dim, cell_size, at);
                clocks.push(clock);
                request = t.entered(layout, cell, dir);
            }
            Request::Advance => {
                let axis = clocks[clocks.len() - 1].axis();
                let depth = t.depth();
                request = t.stepped(layout, axis);
                if t.depth() < depth {
                    clocks.pop();
                } else {
                    let last = clocks.len() - 1;
                    clocks[last].advance(axis.unwrap());
                }
            }
            Request::Reach { lo, hi } => {
                let at = clocks[clocks.len() - 1].t_entry;
                let reaches = match ray_aabb(ray, corner(lo) - 1.0, corner(hi) + 1.0) {
                    Some((_, far)) => far >= at - 1e-9,
                    None => false,
                };
                request = t.reached(layout, reaches);
            }
            Request::Hit(voxel) => {
                let t_enter = clocks[clocks.len() - 1].t_entry;
                return (Some(Hit { voxel, t_enter }), t.stats);
            }
            Request::Miss => return (None, t.stats),
        }
    }
}

fn traverse<L: NodeLayout>(layout: &L, ray: &Ray) -> Option<Hit> {
    traverse_counted(layout, ray).0
}

fn oracle_first_hit<F: OccupancyField>(field: &F, ray: &Ray) -> Option<Hit> {
    let n = field.resolution().voxels_per_axis();
    let t_grid = grid_entry(ray, n)?;
    let Request::Enter { origin, dim, cell_size } = FieldMarch::start(field) else {
        return None;
    };
    let (mut clock, cell, dir) = Clock::enter(ray, origin, dim, cell_size, t_grid);
    let (mut march, mut request) = FieldMarch::begin(field, cell, dir);
    loop {
        match request {
            Request::Hit(voxel) => return Some(Hit { voxel, t_enter: clock.t_entry }),
            Request::Advance => {
                let axis = clock.axis();
                request = march.stepped(field, axis);
                if let Some(a) = axis {
                    clock.advance(a);
                }
            }
            _ => return None,
        }
    }
}

fn mip_first_hit(grid: &BrickGrid, ray: &Ray) -> Option<Hit> {
    let n = grid.resolution().voxels_per_axis();
    let t_grid = grid_entry(ray, n)?;
    let Request::Enter { origin, dim, cell_size } = BrickMarch::start(grid) else {
        return None;
    };
    let (mut bricks, cell, dir) = Clock::enter(ray, origin, dim, cell_size, t_grid);
    let (mut march, mut request) = BrickMarch::begin(grid, cell, dir);
    let mut voxels = bricks;
    loop {
        match request {
            Request::Enter { origin, dim, cell_size } => {
                let (clock, cell, dir) = Clock::enter(ray, origin, dim, cell_size, bricks.t_entry);
                voxels = clock;
                request = march.entered(grid, cell, dir);
            }
            Request::Hit(voxel) => return Some(Hit { voxel, t_enter: voxels.t_entry }),
            Request::Advance => {
                let inner = march.voxels.is_some();
                let clock = if inner { &mut voxels } else { &mut bricks };
                let axis = clock.axis();
                request = march.stepped(grid, axis);
                if let Some(a) = axis {
                    clock.advance(a);
                }
            }
            _ => return None,
        }
    }
}

fn random_ray(state: &mut u64, nf: f64) -> Option<Ray> {
    let origin = DVec3::new(
        unit(state) * (nf + 8.0) - 4.0,
        unit(state) * (nf + 8.0) - 4.0,
        unit(state) * (nf + 8.0) - 4.0,
    );
    let dir = DVec3::new(
        unit(state) * 2.0 - 1.0,
        unit(state) * 2.0 - 1.0,
        unit(state) * 2.0 - 1.0,
    );
    if dir.length() < 1e-3 {
        return None;
    }
    Some(Ray::new(origin, dir))
}

#[test]
fn axis_aligned_hit_is_exact() {
    let f = SingleVoxel { resolution: res(8), voxel: VoxelCoord::new(5, 0, 0) };
    let ray = Ray::new(DVec3::new(-1.0, 0.5, 0.5), DVec3::X);
    let hit = oracle_first_hit(&f, &ray).unwrap();
    assert_eq!(hit.voxel, VoxelCoord::new(5, 0, 0));
    assert!((hit.t_enter - 6.0).abs() < 1e-12);
}

#[test]
fn empty_field_always_misses() {
    let f = Empty { resolution: res(32) };
    let ray = Ray::new(DVec3::new(-1.0, 8.0, 8.0), DVec3::X);
    assert!(oracle_first_hit(&f, &ray).is_none());
}

#[test]
fn solid_field_hits_entry_voxel() {
    let f = Solid { resolution: res(32) };
    let ray = Ray::new(DVec3::new(-5.0, 4.5, 4.5), DVec3::X);
    let hit = oracle_first_hit(&f, &ray).unwrap();
    assert_eq!(hit.voxel, VoxelCoord::new(0, 4, 4));
}

#[test]
fn ray_pointing_away_misses() {
    let f = Solid { resolution: res(8) };
    let ray = Ray::new(DVec3::new(-1.0, 4.0, 4.0), DVec3::NEG_X);
    assert!(oracle_first_hit(&f, &ray).is_none());
}

#[test]
fn materialization_matches_field() {
    let field = OctantFractal::sierpinski_tetrahedron(res(128));
    let grid = BrickGrid::from_field(&field);
    let n = field.resolution().voxels_per_axis();
    for z in (0..n).step_by(3) {
        for y in (0..n).step_by(3) {
            for x in (0..n).step_by(3) {
                let c = VoxelCoord::new(x, y, z);
                if field.is_occupied(c) {
                    assert!(grid.is_brick_occupied([x / 8, y / 8, z / 8]));
                }
            }
        }
    }
}

#[test]
fn exact_hit_through_single_voxel() {
    let field = SingleVoxel { resolution: res(32), voxel: VoxelCoord::new(20, 3, 3) };
    let grid = BrickGrid::from_field(&field);
    let ray = Ray::new(DVec3::new(-1.0, 3.5, 3.5), DVec3::X);
    let hit = mip_first_hit(&grid, &ray).unwrap();
    assert_eq!(hit.voxel, VoxelCoord::new(20, 3, 3));
    assert!((hit.t_enter - 21.0).abs() < 1e-9);
}

#[test]
fn bricks_out_of_range_are_empty() {
    let grid = BrickGrid::from_field(&Solid { resolution: res(32) });
    assert_eq!(grid.bricks_per_axis(), 4);
    assert!(grid.is_brick_occupied([3, 3, 3]));
    assert!(!grid.is_brick_occupied([4, 0, 0]));
    assert!(!grid.is_brick_occupied([0, 0, 4]));
}

#[test]
fn two_level_matches_oracle_on_random_rays() {
    let r = res(128);
    let nf = f64::from(r.voxels_per_axis());
    let checker = Checkerboard { resolution: r };
    let frac = OctantFractal::sierpinski_tetrahedron(r);
    let checker_grid = BrickGrid::from_field(&checker);
    let frac_grid = BrickGrid::from_field(&frac);

    let mut state = 0xC0FF_EE12_3456_789Au64;
    let mut compared = 0u32;
    for _ in 0..4000 {
        let Some(ray) = random_ray(&mut state, nf) else {
            continue;
        };
        for (field_hit, grid) in [
            (oracle_first_hit(&checker, &ray), &checker_grid),
            (oracle_first_hit(&frac, &ray), &frac_grid),
        ] {
            let mip_hit = mip_first_hit(grid, &ray);
            assert_eq!(
                field_hit.is_some(),
                mip_hit.is_some(),
                "hit/miss disagreement, {ray:?}"
            );
            if let (Some(a), Some(b)) = (field_hit, mip_hit) {
                assert!(
                    (a.t_enter - b.t_enter).abs() < 1e-6,
                    "t mismatch: oracle={} mip={} {ray:?}",
                    a.t_enter,
                    b.t_enter
                );
            }
            compared += 1;
        }
    }
    assert!(compared > 1000, "too few comparisons: {compared}");
}

#[test]
fn point_query_via_school_b_matches_school_a() {
    let field = OctantFractal::sierpinski_tetrahedron(res(128));
    let tree = SparseTree::build(&field);
    let b = SchoolBBuffer::from_sparse(&tree);
    let n = field.resolution().voxels_per_axis();
    for y in (0..n).step_by(2) {
        for x in (0..n).step_by(2) {
            let ray = Ray::new(
                DVec3::new(f64::from(x) + 0.5, f64::from(y) + 0.5, -1.0),
                DVec3::Z,
            );
            assert_eq!(traverse(&tree, &ray), traverse(&b, &ray), "at ({x},{y})");
        }
    }
}

#[test]
fn edges_single_brick_empty_solid() {
    let ray = Ray::new(DVec3::new(-1.0, 4.0, 4.0), DVec3::X);

    let single = SchoolBBuffer::from_sparse(&SparseTree::build(&SingleVoxel {
        resolution: res(8),
        voxel: VoxelCoord::new(4, 4, 4),
    }));
    assert_eq!(
        traverse(&single, &ray).map(|h| h.voxel),
        Some(VoxelCoord::new(4, 4, 4))
    );

    let empty = SchoolBBuffer::from_sparse(&SparseTree::build(&Empty { resolution: res(32) }));
    assert!(traverse(&empty, &ray).is_none());

    let solid = SchoolBBuffer::from_sparse(&SparseTree::build(&Solid { resolution: res(32) }));
    assert_eq!(
        traverse(&solid, &ray).map(|h| h.voxel),
        Some(VoxelCoord::new(0, 4, 4))
    );
}

#[test]
fn school_a_and_b_both_match_oracle_on_random_rays() {
    let r = res(128);
    let nf = f64::from(r.voxels_per_axis());
    let checker = Checkerboard { resolution: r };
    let frac = OctantFractal::sierpinski_tetrahedron(r);
    let checker_a = SparseTree::build(&checker);
    let checker_b = SchoolBBuffer::from_sparse(&checker_a);
    let frac_a = SparseTree::build(&frac);
    let frac_b = SchoolBBuffer::from_sparse(&frac_a);

    let mut state = 0xABCD_1234_5678_9999u64;
    let mut compared = 0u32;
    for _ in 0..4000 {
        let Some(ray) = random_ray(&mut state, nf) else {
            continue;
        };
        for (field_ref, a, b) in [
            (
                oracle_first_hit(&checker, &ray),
                traverse(&checker_a, &ray),
                traverse(&checker_b, &ray),
            ),
            (
                oracle_first_hit(&frac, &ray),
                traverse(&frac_a, &ray),
                traverse(&frac_b, &ray),
            ),
        ] {
            assert_eq!(a, b, "the layouts disagree, {ray:?}");
            assert_eq!(field_ref.is_some(), a.is_some(), "hit/miss vs oracle");
            if let (Some(o), Some(h)) = (field_ref, a) {
                assert!((o.t_enter - h.t_enter).abs() < 1e-6);
            }
            compared += 1;
        }
    }
    assert!(compared > 1000);
}

#[test]
fn empty_and_solid_edges() {
    let empty = SparseTree::build(&Empty { resolution: res(32) });
    assert_eq!(empty.leaf_count(), 0);
    let ray = Ray::new(DVec3::new(-1.0, 4.0, 4.0), DVec3::X);
    assert!(traverse(&empty, &ray).is_none());

    let solid = SparseTree::build(&Solid { resolution: res(32) });
    let hit = traverse(&solid, &ray).unwrap();
    assert_eq!(hit.voxel, VoxelCoord::new(0, 4, 4));
}

#[test]
fn traverse_matches_oracle_on_random_rays() {
    let r = res(128);
    let nf = f64::from(r.voxels_per_axis());
    let checker = Checkerboard { resolution: r };
    let frac = OctantFractal::sierpinski_tetrahedron(r);
    let checker_tree = SparseTree::build(&checker);
    let frac_tree = SparseTree::build(&frac);

    let mut state = 0x1234_5678_9ABC_DEF0u64;
    let mut compared = 0u32;
    for _ in 0..4000 {
        let Some(ray) = random_ray(&mut state, nf) else {
            continue;
        };
        for (oracle_hit, tree) in [
            (oracle_first_hit(&checker, &ray), &checker_tree),
            (oracle_first_hit(&frac, &ray), &frac_tree),
        ] {
            let tree_hit = traverse(tree, &ray);
            assert_eq!(oracle_hit.is_some(), tree_hit.is_some(), "hit/miss, {ray:?}");
            if let (Some(a), Some(b)) = (oracle_hit, tree_hit) {
                assert!(
                    (a.t_enter - b.t_enter).abs() < 1e-6,
                    "t mismatch: oracle={} tree={} {ray:?}",
                    a.t_enter,
                    b.t_enter
                );
            }
            compared += 1;
        }
    }
    assert!(compared > 1000);
}

#[test]
fn counters_count_descents_and_cells() {
    let tree = SparseTree::build(&Solid { resolution: res(32) });
    let ray = Ray::new(DVec3::new(-1.0, 4.5, 4.5), DVec3::X);
    let (hit, stats) = traverse_counted(&tree, &ray);
    assert_eq!(hit.unwrap().voxel, VoxelCoord::new(0, 4, 4));
    assert_eq!(stats, TraversalStats { descents: 2, cell_steps: 2 });

    let lone = SparseTree::build(&SingleVoxel {
        resolution: res(8),
        voxel: VoxelCoord::new(5, 2, 2),
    });
    let ray = Ray::new(DVec3::new(-1.0, 2.5, 2.5), DVec3::X);
    let (hit, stats) = traverse_counted(&lone, &ray);
    assert_eq!(hit.unwrap().voxel, VoxelCoord::new(5, 2, 2));
    assert_eq!(stats, TraversalStats { descents: 1, cell_steps: 6 });
}

#[test]
fn a_leaf_box_out_of_reach_is_skipped() {
    let tree = SparseTree::build(&SingleVoxel {
        resolution: res(32),
        voxel: VoxelCoord::new(1, 1, 1),
    });
    let (mut t, request) = Traversal::start(&tree);
    assert_eq!(
        request,
        Request::Enter { origin: VoxelCoord::new(0, 0, 0), dim: 4, cell_size: 8 }
    );
    let request = t.entered(&tree, [0, 0, 0], [1, 0, 0]);
    assert_eq!(
        request,
        Request::Reach { lo: VoxelCoord::new(1, 1, 1), hi: VoxelCoord::new(2, 2, 2) }
    );
    assert_eq!(t.clone().reached(&tree, false), Request::Advance);
    assert_eq!(
        t.reached(&tree, true),
        Request::Enter { origin: VoxelCoord::new(0, 0, 0), dim: 8, cell_size: 1 }
    );
    let request = t.entered(&tree, [0, 1, 1], [1, 0, 0]);
    assert_eq!(request, Request::Advance);
    let request = t.stepped(&tree, Some(0));
    assert_eq!(request, Request::Hit(VoxelCoord::new(1, 1, 1)));
    assert_eq!(t.depth(), 2);
}

#[test]
fn a_walk_that_leaves_the_root_misses() {
    let tree = SparseTree::build(&SingleVoxel {
        resolution: res(32),
        voxel: VoxelCoord::new(1, 1, 1),
    });
    let (mut t, _) = Traversal::start(&tree);
    assert_eq!(t.entered(&tree, [3, 3, 3], [1, 0, 0]), Request::Advance);
    assert_eq!(t.stepped(&tree, Some(0)), Request::Miss);
    assert_eq!(t.depth(), 0);
}

#[test]
fn walks_clamp_and_stop_at_the_grid() {
    let mut w = Walk::enter([9, 0, 2], [1, -1, 0], 4);
    assert_eq!(w.cell, [3, 0, 2]);
    assert!(!w.step(0));
    assert!(!w.step(1));
    assert!(!w.step(2));
    assert_eq!(w.cell, [3, 0, 2]);
    let mut w = Walk::enter([1, 1, 1], [1, -1, 1], 4);
    assert!(w.step(0) && w.step(1) && w.step(2));
    assert_eq!(w.cell, [2, 0, 2]);
}

#[test]
fn ties_break_toward_the_lowest_axis() {
    assert_eq!(nearest_axis(false, false, false), 0);
    assert_eq!(nearest_axis(true, true, false), 1);
    assert_eq!(nearest_axis(false, true, true), 2);
    assert_eq!(nearest_axis(true, true, true), 2);
}

#[test]
fn frames_walk_cells_of_the_level_below() {
    assert_eq!(frame_cell_size(1), 1);
    assert_eq!(frame_cell_size(2), 8);
    assert_eq!(frame_cell_size(3), 32);
    assert_eq!(frame_cell_size(5), 512);
}

/// The parameters of one walk, in the kernel's precision.
#[derive(Clone, Copy)]
struct Clock32 {
    t_max: [f32; 3],
    t_delta: [f32; 3],
    t_entry: f32,
}

impl Clock32 {
    fn enter(
        o: [f32; 3],
        d: [f32; 3],
        origin: VoxelCoord,
        dim: u32,
        cell_size: u32,
        t: f32,
    ) -> (Self, [u32; 3], [i8; 3]) {
        let base = [origin.x as f32, origin.y as f32, origin.z as f32];
        let size = cell_size as f32;
        let mut clock =
            Clock32 { t_max: [f32::INFINITY; 3], t_delta: [f32::INFINITY; 3], t_entry: t };
        let (mut cell, mut dir) = ([0u32; 3], [0i8; 3]);
        for a in 0..3 {
            let entry = o[a] + t * d[a];
            let idx = ((entry - base[a]) / size).floor().clamp(0.0, (dim - 1) as f32) as u32;
            cell[a] = idx;
            if d[a] > 0.0 {
                dir[a] = 1;
                let next = base[a] + (idx as f32 + 1.0) * size;
                clock.t_max[a] = t + (next - entry) / d[a];
                clock.t_delta[a] = size / d[a];
            } else if d[a] < 0.0 {
                dir[a] = -1;
                let next = base[a] + (idx as f32) * size;
                clock.t_max[a] = t + (next - entry) / d[a];
                clock.t_delta[a] = -size / d[a];
            }
        }
        (clock, cell, dir)
    }

    fn axis(&self) -> Option<usize> {
        let t = self.t_max;
        let a = nearest_axis(t[1] < t[0], t[2] < t[0], t[2] < t[1]);
        if t[a].is_finite() {
            Some(a)
        } else {
            None
        }
    }
}

fn grid_entry32(o: [f32; 3], d: [f32; 3], n: f32) -> Option<f32> {
    let (mut near, mut far) = (f32::NEG_INFINITY, f32::INFINITY);
    for a in 0..3 {
        if d[a] == 0.0 {
            if o[a] < 0.0 || o[a] > n {
                return None;
            }
        } else {
            let inv = 1.0 / d[a];
            let (t1, t2) = ((0.0 - o[a]) * inv, (n - o[a]) * inv);
            near = near.max(t1.min(t2));
            far = far.min(t1.max(t2));
            if near > far {
                return None;
            }
        }
    }
    if far < 0.0 {
        return None;
    }
    Some(near.max(0.0))
}

fn mirror_traverse(buffer: &SchoolBBuffer, ray: &Ray) -> Option<VoxelCoord> {
    let (o, d) = (ray.origin.as_vec3().to_array(), ray.dir.as_vec3().to_array());
    let t_grid = grid_entry32(o, d, buffer.resolution().voxels_per_axis() as f32)?;
    let (mut t, mut request) = Traversal::start(buffer);
    let mut clocks: Vec<Clock32> = Vec::new();
    loop {
        match request {
            Request::Enter { origin, dim, cell_size } => {
                let at = clocks.last().map_or(t_grid, |c| c.t_entry);
                let (clock, cell, dir) = Clock32::enter(o, d, origin, dim, cell_size, at);
                clocks.push(clock);
                request = t.entered(buffer, cell, dir);
            }
            Request::Advance => {
                let last = clocks.len() - 1;
                let axis = clocks[last].axis();
                let depth = t.depth();
                request = t.stepped(buffer, axis);
                if t.depth() < depth {
                    clocks.pop();
                } else {
                    let a = axis.unwrap();
                    clocks[last].t_entry = clocks[last].t_max[a];
                    clocks[last].t_max[a] += clocks[last].t_delta[a];
                }
            }
            Request::Reach { .. } => request = t.reached(buffer, true),
            Request::Hit(voxel) => return Some(voxel),
            Request::Miss => return None,
        }
    }
}

fn buf<F: OccupancyField>(field: &F) -> SchoolBBuffer {
    SchoolBBuffer::from_sparse(&SparseTree::build(field))
}

#[test]
fn exact_axis_aligned_hits() {
    let b = buf(&SingleVoxel { resolution: res(128), voxel: VoxelCoord::new(40, 9, 9) });
    let ray = Ray::new(DVec3::new(-1.0, 9.5, 9.5), DVec3::X);
    assert_eq!(mirror_traverse(&b, &ray), Some(VoxelCoord::new(40, 9, 9)));

    let empty = buf(&Empty { resolution: res(32) });
    assert_eq!(mirror_traverse(&empty, &ray), None);

    let solid = buf(&Solid { resolution: res(32) });
    assert_eq!(
        mirror_traverse(&solid, &Ray::new(DVec3::new(-1.0, 4.5, 4.5), DVec3::X)),
        Some(VoxelCoord::new(0, 4, 4))
    );
}

#[test]
fn single_brick_k0() {
    let b = buf(&SingleVoxel { resolution: res(8), voxel: VoxelCoord::new(5, 2, 2) });
    let ray = Ray::new(DVec3::new(-1.0, 2.5, 2.5), DVec3::X);
    assert_eq!(mirror_traverse(&b, &ray), Some(VoxelCoord::new(5, 2, 2)));
}

#[test]
fn iterative_f32_matches_oracle_within_grazing_bound() {
    let r = res(128);
    let nf = f64::from(r.voxels_per_axis());
    let frac = OctantFractal::sierpinski_tetrahedron(r);
    let checker = Checkerboard { resolution: r };
    let frac_b = buf(&frac);
    let checker_b = buf(&checker);

    let mut state = 0x7777_3333_BBBB_1111u64;
    let mut total = 0u32;
    let mut mismatch = 0u32;
    for _ in 0..6000 {
        let Some(ray) = random_ray(&mut state, nf) else {
            continue;
        };
        for (field_hit, b) in [
            (oracle_first_hit(&frac, &ray).map(|h| h.voxel), &frac_b),
            (oracle_first_hit(&checker, &ray).map(|h| h.voxel), &checker_b),
        ] {
            total += 1;
            if mirror_traverse(b, &ray) != field_hit {
                mismatch += 1;
            }
        }
    }
    let rate = f64::from(mismatch) / f64::from(total);
    assert!(
        rate < 0.01,
        "f32 mirror disagreed with oracle on {mismatch}/{total} ({:.3}%) — expected < 1% grazing",
        rate * 100.0
    );
}

#[test]
fn descent_stats_are_sane() {
    let tree = SparseTree::build(&OctantFractal::sierpinski_tetrahedron(res(128)));
    let nf = f64::from(tree.resolution().voxels_per_axis());
    let center = DVec3::splat(nf * 0.5);
    let mut rng = 0x5DEE_CE66_D3A9_7F1Bu64;
    let mut tally = RayTally::default();
    for _ in 0..2000 {
        let origin = DVec3::new(
            unit(&mut rng) * (2.0 * nf) - 0.5 * nf,
            unit(&mut rng) * (2.0 * nf) - 0.5 * nf,
            unit(&mut rng) * (2.0 * nf) - 0.5 * nf,
        );
        let jitter = DVec3::new(
            unit(&mut rng) - 0.5,
            unit(&mut rng) - 0.5,
            unit(&mut rng) - 0.5,
        ) * (nf * 0.25);
        let (hit, stats) = traverse_counted(&tree, &Ray::new(origin, (center + jitter) - origin));
        tally.record(hit.is_some(), stats);
    }
    assert!(tally.hits > 0, "some camera rays should hit");
    assert!(
        tally.descents as f64 / 2000.0 >= 1.0,
        "every traced ray descends the root"
    );
    assert!(tally.max_descents <= u64::from(tree.coarse_level()) + 100);
}

/// The slope of the logarithm of each level's count over that of its cell size,
/// negated, and the quality of the fit.
fn estimate_dimension(tree: &SparseTree) -> (f64, f64) {
    let points: Vec<(f64, f64)> = per_level_footprint(tree)
        .iter()
        .filter(|f| f.count > 0)
        .map(|f| ((f.cell_size as f64).ln(), (f.count as f64).ln()))
        .collect();
    let n = points.len() as f64;
    let sx: f64 = points.iter().map(|p| p.0).sum();
    let sy: f64 = points.iter().map(|p| p.1).sum();
    let sxx: f64 = points.iter().map(|p| p.0 * p.0).sum();
    let syy: f64 = points.iter().map(|p| p.1 * p.1).sum();
    let sxy: f64 = points.iter().map(|p| p.0 * p.1).sum();
    let cov = n * sxy - sx * sy;
    let (var_x, var_y) = (n * sxx - sx * sx, n * syy - sy * sy);
    (-cov / var_x, cov * cov / (var_x * var_y))
}

#[test]
fn dimension_recovers_known_fractal_d() {
    let tree = SparseTree::build(&OctantFractal::sierpinski_tetrahedron(res(512)));
    let (dimension, r_squared) = estimate_dimension(&tree);
    assert!((dimension - 2.0).abs() < 0.1, "D estimate {} not near 2.0", dimension);
    assert!(r_squared > 0.99, "fractal should be scale-invariant");
}

#[test]
fn dimension_recovers_near_solid_checkerboard() {
    let tree = SparseTree::build(&Checkerboard { resolution: res(128) });
    let (dimension, _) = estimate_dimension(&tree);
    assert!(dimension > 2.8, "checkerboard D {} should be ~3", dimension);
}
