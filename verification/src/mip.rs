//! A dense two-level grid: a coarse brick skip level over `8³` bitmask leaves.
//!
//! The grid stores, per `8³` brick, a non-empty flag (the skip signal) and the
//! brick's 512-bit leaf. [`BrickMarch`] walks the bricks, skipping empty ones in
//! one step, and on an occupied brick descends to a fresh voxel walk inside it.
//! It is dense, so it is for small and medium resolutions only.

use crate::assemble::{brick_at, lemma_brick_at, scan_brick, scans, voxel_of};
use crate::bits::{bit, lemma_bit_ops, lemma_zero_bit};
use crate::coord::VoxelCoord;
use crate::leaf::LeafBrick;
use crate::morton::MAX_MORTON_COORD;
use crate::occupancy::{lemma_linear_range, linear, OccupancyField};
use crate::resolution::{lemma_pow4_increases, lemma_pow4_range, Resolution};
use crate::traverse::{in_cube, Request, Walk};
use vstd::prelude::*;

verus! {

/// A dense two-level structure: a non-empty bit and an `8³` leaf per brick.
#[derive(Debug, Clone)]
pub struct BrickGrid {
    resolution: Resolution,
    /// Bricks per axis (`n / 8`).
    bricks_per_axis: u32,
    /// One bit per brick: set iff the brick has any occupied voxel.
    coarse: Vec<u64>,
    /// One leaf per brick, indexed `bx + by·bpa + bz·bpa²`.
    leaves: Vec<LeafBrick>,
}

/// Bricks per axis of a grid.
pub open spec fn brick_side(resolution: Resolution) -> int {
    resolution.side() as int / 8
}

/// One leaf per brick of `resolution` fits in addressable memory.
pub open spec fn bricks_fit(resolution: Resolution) -> bool {
    64 * (brick_side(resolution) * brick_side(resolution) * brick_side(resolution)) <= isize::MAX
}

/// Brick coordinates as an array.
pub open spec fn brick(b: [u32; 3]) -> VoxelCoord {
    VoxelCoord { x: b[0], y: b[1], z: b[2] }
}

/// `c` lies in brick `b`.
pub open spec fn in_brick(c: VoxelCoord, b: VoxelCoord) -> bool {
    c.x / 8 == b.x && c.y / 8 == b.y && c.z / 8 == b.z
}

impl BrickGrid {
    /// The grid's resolution.
    pub closed spec fn spec_resolution(self) -> Resolution {
        self.resolution
    }

    /// Whether voxel `c` is occupied.
    pub closed spec fn occ(self, c: VoxelCoord) -> bool {
        &&& c.within(self.resolution)
        &&& self.leaves@[linear(
            VoxelCoord { x: c.x / 8, y: c.y / 8, z: c.z / 8 },
            self.bricks_per_axis as int,
        )].occ(c.x, c.y, c.z)
    }

    /// Some voxel of brick `b` is occupied.
    pub open spec fn brick_occ(self, b: VoxelCoord) -> bool {
        exists|c: VoxelCoord| #[trigger] self.occ(c) && in_brick(c, b)
    }

    /// One leaf and one flag per brick, the flag set exactly where the leaf is
    /// not empty.
    pub closed spec fn wf(self) -> bool {
        let m = self.bricks_per_axis as int;
        &&& self.resolution.wf()
        &&& m == brick_side(self.resolution)
        &&& m <= MAX_MORTON_COORD
        &&& self.leaves@.len() == m * m * m
        &&& 64 * self.coarse@.len() >= self.leaves@.len()
        &&& flags(self.coarse@, self.leaves@, self.leaves@.len() as int)
    }

    /// The grid holds exactly the field's voxels.
    pub open spec fn materializes<F: OccupancyField>(self, field: &F) -> bool {
        &&& self.wf()
        &&& self.spec_resolution() == field.grid()
        &&& forall|c: VoxelCoord|
            #[trigger] self.occ(c) == (c.within(field.grid()) && field.occ(c))
    }

    /// Builds the dense two-level grid from an occupancy field, which must be
    /// small enough for one leaf per brick to fit in addressable memory.
    #[must_use]
    pub fn from_field<F: OccupancyField>(field: &F) -> (r: Self)
        requires
            field.valid(),
            bricks_fit(field.grid()),
        ensures
            r.materializes(field),
    {
        let resolution: Resolution = field.resolution();
        let n: u32 = resolution.voxels_per_axis();
        let bpa: u32 = n / 8;
        let ghost m = bpa as int;
        proof {
            lemma_side_bricks(resolution);
            lemma_cube_bound(m);
        }
        let m2: u64 = bpa as u64 * bpa as u64;
        assert(m2 * m == m * m * m);
        let count: usize = (m2 * bpa as u64) as usize;
        let mut leaves: Vec<LeafBrick> = Vec::new();
        let mut coarse: Vec<u64> = vec![0u64; count / 64 + 1];
        let mut t: usize = 0;
        proof {
            assert forall|j: int| 0 <= j < 64 * coarse@.len() implies !#[trigger] bit(
                coarse@[j / 64],
                j % 64,
            ) by {
                lemma_zero_bit((j % 64) as u64);
            }
        }
        while t < count
            invariant
                field.valid(),
                t <= count,
                1 <= bpa <= MAX_MORTON_COORD,
                m == bpa,
                count == m * m * m,
                m2 == m * m,
                leaves@.len() == t,
                coarse@.len() == count / 64 + 1,
                flags(coarse@, leaves@, t as int),
                forall|j: int|
                    0 <= j < t ==> scans(field, brick_at(j, m), #[trigger] leaves@[j]),
            decreases count - t,
        {
            let tt: u64 = t as u64;
            let (bx, by, bz) = (
                (tt % bpa as u64) as u32,
                (tt / bpa as u64 % bpa as u64) as u32,
                (tt / bpa as u64 / bpa as u64) as u32,
            );
            proof {
                lemma_place(t as int, m);
            }
            let leaf: LeafBrick = scan_brick(field, bx, by, bz);
            assert(brick_at(t as int, m) == (VoxelCoord { x: bx, y: by, z: bz }));
            let ghost was = coarse@;
            if !leaf.is_empty() {
                let w: u64 = coarse[t / 64];
                coarse[t / 64] = w | (1u64 << (t % 64) as u64);
            }
            leaves.push(leaf);
            proof {
                lemma_flag_step(was, coarse@, leaves@, t as int);
            }
            t = t + 1;
        }
        let r = Self { resolution, bricks_per_axis: bpa, coarse, leaves };
        proof {
            assert forall|c: VoxelCoord| #[trigger] r.occ(c) == (c.within(field.grid())
                && field.occ(c)) by {
                if c.within(field.grid()) {
                    let b = VoxelCoord { x: c.x / 8, y: c.y / 8, z: c.z / 8 };
                    lemma_linear_range(b, m);
                    lemma_brick_at(b, m);
                    let leaf = r.leaves@[linear(b, m)];
                    assert(scans(field, b, leaf));
                    let (lx, ly, lz) = (c.x % 8, c.y % 8, c.z % 8);
                    assert(lx % 8 == lx && ly % 8 == ly && lz % 8 == lz);
                    assert(leaf.occ(lx, ly, lz) == leaf.occ(c.x, c.y, c.z));
                    assert(voxel_of(b, lx, ly, lz) == c);
                }
            }
        }
        r
    }

    /// The grid resolution.
    #[must_use]
    pub fn resolution(&self) -> (r: Resolution)
        ensures
            r == self.spec_resolution(),
    {
        self.resolution
    }

    /// Bricks per axis (`n / 8`).
    #[must_use]
    pub fn bricks_per_axis(&self) -> (r: u32)
        requires
            self.wf(),
        ensures
            r == brick_side(self.spec_resolution()),
            1 <= r <= MAX_MORTON_COORD,
    {
        proof {
            lemma_side_bricks(self.resolution);
        }
        self.bricks_per_axis
    }

    fn brick_index(&self, b: [u32; 3]) -> (r: usize)
        requires
            self.wf(),
            b[0] < self.bricks_per_axis,
            b[1] < self.bricks_per_axis,
            b[2] < self.bricks_per_axis,
        ensures
            r == linear(brick(b), self.bricks_per_axis as int),
            r < self.leaves@.len(),
    {
        let bpa: usize = self.bricks_per_axis as usize;
        let total: usize = self.leaves.len();
        proof {
            let m = self.bricks_per_axis as int;
            let (x, y, z) = (b[0] as int, b[1] as int, b[2] as int);
            lemma_linear_range(brick(b), m);
            assert(0 <= y * m && 0 <= z * m <= z * m * m && x + y * m + z * m * m == x + m * (y + m
                * z)) by (nonlinear_arith)
                requires
                    0 <= y,
                    0 <= z,
                    1 <= m,
            ;
        }
        let (x, y, z) = (b[0] as usize, b[1] as usize, b[2] as usize);
        x + y * bpa + z * bpa * bpa
    }

    /// Whether brick `b` has any occupied voxel (the coarse skip test). `false`
    /// for out-of-range brick coordinates.
    #[must_use]
    pub fn is_brick_occupied(&self, b: [u32; 3]) -> (r: bool)
        requires
            self.wf(),
        ensures
            r == self.brick_occ(brick(b)),
            r ==> b[0] < brick_side(self.spec_resolution()) && b[1] < brick_side(
                self.spec_resolution(),
            ) && b[2] < brick_side(self.spec_resolution()),
    {
        if b[0] >= self.bricks_per_axis || b[1] >= self.bricks_per_axis || b[2]
            >= self.bricks_per_axis {
            return false;
        }
        let idx: usize = self.brick_index(b);
        let w: u64 = self.coarse[idx / 64];
        proof {
            assert(bit(self.coarse@[idx as int / 64], idx as int % 64) == !self.leaves@[idx as int].vacant());
            lemma_brick_voxels(*self, brick(b));
        }
        (w >> (idx % 64) as u64) & 1 == 1
    }

    /// The leaf brick at `b`.
    fn leaf(&self, b: [u32; 3]) -> (r: &LeafBrick)
        requires
            self.wf(),
            b[0] < self.bricks_per_axis,
            b[1] < self.bricks_per_axis,
            b[2] < self.bricks_per_axis,
        ensures
            *r == self.leaves@[linear(brick(b), self.bricks_per_axis as int)],
    {
        let idx: usize = self.brick_index(b);
        &self.leaves[idx]
    }
}

/// The first `n` flags say which leaves are not empty; the others are clear.
spec fn flags(coarse: Seq<u64>, leaves: Seq<LeafBrick>, n: int) -> bool {
    forall|j: int|
        0 <= j < 64 * coarse.len() ==> #[trigger] bit(coarse[j / 64], j % 64) == (j < n
            && !leaves[j].vacant())
}

proof fn lemma_side_bricks(resolution: Resolution)
    requires
        resolution.wf(),
        bricks_fit(resolution) || brick_side(resolution) <= MAX_MORTON_COORD,
    ensures
        1 <= brick_side(resolution) <= MAX_MORTON_COORD,
        8 * brick_side(resolution) == resolution.side(),
{
    lemma_pow4_increases(0, resolution.levels() as nat);
    let m = brick_side(resolution);
    if m > MAX_MORTON_COORD {
        assert(64 * (m * m * m) > 0x7fff_ffff_ffff_ffff) by (nonlinear_arith)
            requires
                m > 0x1f_ffff,
        ;
    }
}

proof fn lemma_cube_bound(m: int)
    requires
        1 <= m <= MAX_MORTON_COORD,
        64 * (m * m * m) <= isize::MAX,
    ensures
        m * m <= u64::MAX,
        m * m * m <= usize::MAX,
        m * m * m <= u64::MAX,
        m * m * m >= 0,
        m * m >= 0,
{
    assert(0 <= m * m <= 0x1f_ffff * 0x1f_ffff && m * m * m >= 0) by (nonlinear_arith)
        requires
            1 <= m <= 0x1f_ffff,
    ;
}

/// The brick at a place of an `m³` grid is inside it.
proof fn lemma_place(t: int, m: int)
    requires
        1 <= m,
        0 <= t < m * m * m,
    ensures
        0 <= t % m < m,
        0 <= t / m % m < m,
        0 <= t / m / m < m,
{
    assert(0 <= t / m < m * m) by (nonlinear_arith)
        requires
            1 <= m,
            0 <= t < m * m * m,
    ;
    let q = t / m;
    assert(0 <= q / m < m) by (nonlinear_arith)
        requires
            1 <= m,
            0 <= q < m * m,
    ;
    assert(0 <= t % m < m && 0 <= q % m < m) by (nonlinear_arith)
        requires
            1 <= m,
    ;
}

/// Recording one more leaf's flag.
proof fn lemma_flag_step(was: Seq<u64>, now: Seq<u64>, leaves: Seq<LeafBrick>, t: int)
    requires
        0 <= t < 64 * was.len(),
        leaves.len() == t + 1,
        flags(was, leaves.drop_last(), t),
        leaves[t].vacant() ==> now == was,
        !leaves[t].vacant() ==> now == was.update(
            t / 64,
            was[t / 64] | (1u64 << (t % 64) as u64),
        ),
    ensures
        flags(now, leaves, t + 1),
{
    assert forall|j: int| 0 <= j < 64 * now.len() implies #[trigger] bit(now[j / 64], j % 64) == (j
        < t + 1 && !leaves[j].vacant()) by {
        assert(bit(was[j / 64], j % 64) == (j < t && !leaves.drop_last()[j].vacant()));
        if j / 64 == t / 64 {
            lemma_bit_ops(was[t / 64], (t % 64) as u64, (j % 64) as u64);
        }
        if j < t {
            assert(leaves.drop_last()[j] == leaves[j]);
        }
    }
}

/// A brick's leaf is empty exactly where no voxel of the brick is occupied.
proof fn lemma_brick_voxels(g: BrickGrid, b: VoxelCoord)
    requires
        g.wf(),
        b.x < g.bricks_per_axis,
        b.y < g.bricks_per_axis,
        b.z < g.bricks_per_axis,
    ensures
        g.brick_occ(b) == !g.leaves@[linear(b, g.bricks_per_axis as int)].vacant(),
{
    let m = g.bricks_per_axis as int;
    let leaf = g.leaves@[linear(b, m)];
    lemma_side_bricks(g.resolution);
    lemma_pow4_increases(g.resolution.levels() as nat, 14);
    lemma_pow4_range();
    if g.brick_occ(b) {
        let c = choose|c: VoxelCoord| #[trigger] g.occ(c) && in_brick(c, b);
        assert(VoxelCoord { x: c.x / 8, y: c.y / 8, z: c.z / 8 } == b);
        crate::morton::lemma_local_range(c.x, c.y, c.z);
        assert(leaf@[crate::morton::local_index(c.x, c.y, c.z)]);
    }
    if !leaf.vacant() {
        let i = choose|i: int| 0 <= i < 512 && #[trigger] leaf@[i];
        let l = crate::morton::lemma_local_onto(i);
        let (x, y, z) = (l.x, l.y, l.z);
        let c = voxel_of(b, x, y, z);
        assert(c.x == 8 * b.x + x && c.y == 8 * b.y + y && c.z == 8 * b.z + z);
        assert(VoxelCoord { x: c.x / 8, y: c.y / 8, z: c.z / 8 } == b);
        assert(c.x % 8 == x % 8 && c.y % 8 == y % 8 && c.z % 8 == z % 8);
        assert(leaf.occ(c.x, c.y, c.z));
        assert(g.occ(c));
    }
}

/// A ray's march through a [`BrickGrid`]: the walk over bricks and, inside an
/// occupied brick, the walk over its voxels.
#[derive(Debug, Clone, Copy)]
pub struct BrickMarch {
    /// The walk over bricks.
    pub bricks: Walk,
    /// The walk over the current brick's voxels, inside one.
    pub voxels: Option<Walk>,
}

impl BrickMarch {
    /// The walks are inside the grid.
    pub open spec fn wf(self, g: &BrickGrid) -> bool {
        &&& g.wf()
        &&& self.bricks.wf()
        &&& self.bricks.dim == brick_side(g.spec_resolution())
        &&& self.voxels matches Some(w) ==> w.wf() && w.dim == 8
    }

    /// The current brick.
    pub open spec fn brick(self) -> VoxelCoord {
        brick(self.bricks.cell)
    }

    /// The current voxel of the current brick.
    pub open spec fn voxel(self) -> VoxelCoord {
        let w = self.voxels->0;
        voxel_of(self.brick(), w.cell[0], w.cell[1], w.cell[2])
    }

    /// `request` is right for the current brick: enter it where it holds an
    /// occupied voxel, else pass on.
    pub open spec fn answers_brick(self, g: &BrickGrid, request: Request) -> bool {
        request == if g.brick_occ(self.brick()) {
            Request::Enter { origin: voxel_of(self.brick(), 0, 0, 0), dim: 8, cell_size: 1 }
        } else {
            Request::Advance
        }
    }

    /// `request` is right for the current voxel: a hit where it is occupied,
    /// else pass on.
    pub open spec fn answers_voxel(self, g: &BrickGrid, request: Request) -> bool {
        request == if g.occ(self.voxel()) {
            Request::Hit(self.voxel())
        } else {
            Request::Advance
        }
    }

    /// `next` is this march with the innermost walk moved along `axis`, and
    /// `request` is right there; or, where that walk cannot move, it ended.
    pub open spec fn steps_to(
        self,
        next: Self,
        g: &BrickGrid,
        axis: Option<usize>,
        request: Request,
    ) -> bool {
        let w = if self.voxels is Some {
            self.voxels->0
        } else {
            self.bricks
        };
        let moves = axis is Some && w.can_step(axis->0 as int);
        let cell = w.cell@.update(
            axis->0 as int,
            (w.cell[axis->0 as int] + w.dir[axis->0 as int]) as u32,
        );
        if self.voxels is Some && moves {
            &&& next.bricks == self.bricks
            &&& next.voxels is Some
            &&& (next.voxels->0).cell@ == cell
            &&& (next.voxels->0).dir == w.dir
            &&& next.answers_voxel(g, request)
        } else if self.voxels is Some {
            &&& next.bricks == self.bricks
            &&& next.voxels is None
            &&& request == Request::Advance
        } else if moves {
            &&& next.bricks.cell@ == cell
            &&& next.bricks.dir == w.dir
            &&& next.voxels is None
            &&& next.answers_brick(g, request)
        } else {
            next == self && request == Request::Miss
        }
    }

    /// `next` is inside the current brick at `cell` (clamped), and `request` is
    /// right there.
    pub open spec fn enters_to(
        self,
        next: Self,
        g: &BrickGrid,
        cell: [u32; 3],
        dir: [i8; 3],
        request: Request,
    ) -> bool {
        &&& next.bricks == self.bricks
        &&& next.voxels is Some
        &&& (next.voxels->0).dir == dir
        &&& forall|a: int|
            0 <= a < 3 ==> #[trigger] (next.voxels->0).cell[a] == if cell[a] < 8 {
                cell[a]
            } else {
                7
            }
        &&& next.answers_voxel(g, request)
    }

    /// What the driver enters first: the whole grid, in cells of one brick.
    pub fn start(grid: &BrickGrid) -> (r: Request)
        requires
            grid.wf(),
        ensures
            r == (Request::Enter {
                origin: VoxelCoord { x: 0, y: 0, z: 0 },
                dim: brick_side(grid.spec_resolution()) as u32,
                cell_size: 8,
            }),
    {
        let dim: u32 = grid.bricks_per_axis();
        Request::Enter { origin: VoxelCoord::new(0, 0, 0), dim, cell_size: 8 }
    }

    /// Begins at the brick the ray enters the grid in.
    pub fn begin(grid: &BrickGrid, cell: [u32; 3], dir: [i8; 3]) -> (r: (Self, Request))
        requires
            grid.wf(),
        ensures
            r.0.wf(grid),
            r.0.voxels is None,
            r.0.bricks.dir == dir,
            forall|a: int|
                0 <= a < 3 ==> #[trigger] r.0.bricks.cell[a] == if cell[a] < brick_side(
                    grid.spec_resolution(),
                ) {
                    cell[a] as int
                } else {
                    brick_side(grid.spec_resolution()) - 1
                },
            r.0.answers_brick(grid, r.1),
    {
        let dim: u32 = grid.bricks_per_axis();
        let march = BrickMarch { bricks: Walk::enter(cell, dir, dim), voxels: None };
        let request: Request = march.examine_brick(grid);
        (march, request)
    }

    /// Descends into the current brick at the voxel the ray enters it in.
    pub fn entered(&mut self, grid: &BrickGrid, cell: [u32; 3], dir: [i8; 3]) -> (r: Request)
        requires
            old(self).wf(grid),
        ensures
            final(self).wf(grid),
            old(self).enters_to(*final(self), grid, cell, dir, r),
    {
        let w = Walk::enter(cell, dir, 8);
        self.voxels = Some(w);
        self.examine_voxel(grid, w)
    }

    /// Moves the innermost walk one cell along `axis`. A voxel walk that leaves
    /// its brick ends, and the brick walk is next to advance; where the brick
    /// walk leaves the grid, the ray misses.
    pub fn stepped(&mut self, grid: &BrickGrid, axis: Option<usize>) -> (r: Request)
        requires
            old(self).wf(grid),
            axis matches Some(a) ==> a < 3,
        ensures
            final(self).wf(grid),
            old(self).steps_to(*final(self), grid, axis, r),
    {
        match self.voxels {
            Some(voxels) => {
                let mut w: Walk = voxels;
                let moved: bool = match axis {
                    Some(a) => w.step(a),
                    None => false,
                };
                if moved {
                    self.voxels = Some(w);
                    self.examine_voxel(grid, w)
                } else {
                    self.voxels = None;
                    Request::Advance
                }
            },
            None => {
                let mut w: Walk = self.bricks;
                let moved: bool = match axis {
                    Some(a) => w.step(a),
                    None => false,
                };
                if moved {
                    self.bricks = w;
                    self.examine_brick(grid)
                } else {
                    Request::Miss
                }
            },
        }
    }

    fn examine_brick(&self, grid: &BrickGrid) -> (r: Request)
        requires
            self.wf(grid),
        ensures
            self.answers_brick(grid, r),
    {
        let b: [u32; 3] = self.bricks.cell;
        let dim: u32 = grid.bricks_per_axis();
        if grid.is_brick_occupied(b) {
            let origin = VoxelCoord::new(b[0] * 8, b[1] * 8, b[2] * 8);
            Request::Enter { origin, dim: 8, cell_size: 1 }
        } else {
            Request::Advance
        }
    }

    fn examine_voxel(&self, grid: &BrickGrid, w: Walk) -> (r: Request)
        requires
            self.wf(grid),
            self.voxels == Some(w),
        ensures
            self.answers_voxel(grid, r),
    {
        let b: [u32; 3] = self.bricks.cell;
        let dim: u32 = grid.bricks_per_axis();
        let leaf: &LeafBrick = grid.leaf(b);
        let (lx, ly, lz) = (w.cell[0], w.cell[1], w.cell[2]);
        let v = VoxelCoord::new(b[0] * 8 + lx, b[1] * 8 + ly, b[2] * 8 + lz);
        proof {
            assert(v == self.voxel());
            assert(VoxelCoord { x: v.x / 8, y: v.y / 8, z: v.z / 8 } == brick(b));
            assert(v.x % 8 == lx % 8 && v.y % 8 == ly % 8 && v.z % 8 == lz % 8);
            lemma_side_bricks(grid.resolution);
        }
        if leaf.get_local(lx, ly, lz) {
            Request::Hit(v)
        } else {
            Request::Advance
        }
    }
}

/// Skipping a brick skips no occupied voxel.
pub proof fn law_brick_skip_is_safe(m: BrickMarch, g: &BrickGrid, c: VoxelCoord)
    requires
        m.answers_brick(g, Request::Advance),
        in_brick(c, m.brick()),
    ensures
        !g.occ(c),
{
}

/// The coarse grid answers for the field: a brick reads occupied exactly when it is
/// in range and the field has one of its voxels occupied.
pub proof fn law_bricks_answer_for_field<F: OccupancyField>(
    g: BrickGrid,
    field: &F,
    b: VoxelCoord,
)
    requires
        g.materializes(field),
    ensures
        g.brick_occ(b) <==> {
            &&& b.x < brick_side(field.grid())
            &&& b.y < brick_side(field.grid())
            &&& b.z < brick_side(field.grid())
            &&& exists|x: u32, y: u32, z: u32|
                x < 8 && y < 8 && z < 8 && #[trigger] field.occ(voxel_of(b, x, y, z))
        },
{
    let m = brick_side(field.grid());
    lemma_side_bricks(field.grid());
    if g.brick_occ(b) {
        let c = choose|c: VoxelCoord| #[trigger] g.occ(c) && in_brick(c, b);
        let (x, y, z) = (c.x % 8, c.y % 8, c.z % 8);
        assert(c.x == 8 * (c.x / 8) + c.x % 8);
        assert(c.y == 8 * (c.y / 8) + c.y % 8);
        assert(c.z == 8 * (c.z / 8) + c.z % 8);
        assert(voxel_of(b, x, y, z) == c);
        assert(field.occ(voxel_of(b, x, y, z)));
    }
    if b.x < m && b.y < m && b.z < m && exists|x: u32, y: u32, z: u32|
        x < 8 && y < 8 && z < 8 && #[trigger] field.occ(voxel_of(b, x, y, z)) {
        let (x, y, z) = choose|x: u32, y: u32, z: u32|
            x < 8 && y < 8 && z < 8 && #[trigger] field.occ(voxel_of(b, x, y, z));
        let c = voxel_of(b, x, y, z);
        assert(8 * b.x + x < 8 * m && 8 * b.y + y < 8 * m && 8 * b.z + z < 8 * m);
        assert(c.within(field.grid()));
        assert(g.occ(c) && in_brick(c, b));
    }
}

/// The boxes a march asks to enter: first the whole grid in cells of a brick,
/// then each brick that holds an occupied voxel, voxel by voxel. A voxel lies in
/// a brick's box exactly where the brick is its own.
pub proof fn law_brick_boxes(g: BrickGrid, first: Request, m: BrickMarch, r: Request, v: VoxelCoord)
    requires
        g.wf(),
        m.wf(&g),
        call_ensures(BrickMarch::start, (&g,), first),
        m.answers_brick(&g, r),
    ensures
        first matches Request::Enter { origin, dim, cell_size } && dim * cell_size
            == g.spec_resolution().side() && cell_size == 8 && (v.within(g.spec_resolution())
            <==> in_cube(v, origin, dim * cell_size)),
        r is Enter <==> (exists|c: VoxelCoord| #[trigger] g.occ(c) && in_brick(c, m.brick())),
        r matches Request::Enter { origin, dim, cell_size } ==> cell_size == 1 && (in_cube(
            v,
            origin,
            dim * cell_size,
        ) <==> in_brick(v, m.brick())),
        r is Enter || r is Advance,
{
    lemma_side_bricks(g.resolution);
    lemma_pow4_increases(g.resolution.levels() as nat, 14);
    lemma_pow4_range();
}

/// A march begins in the brick of the voxel where the ray enters the grid, and
/// enters a brick at the very voxel: each cell given by the request's own origin
/// and cell size.
pub proof fn law_march_begins_at_voxel(
    g: BrickGrid,
    begun: (BrickMarch, Request),
    m: BrickMarch,
    n: BrickMarch,
    at: [u32; 3],
    cell: [u32; 3],
    dir: [i8; 3],
    r: Request,
    v: VoxelCoord,
)
    requires
        g.wf(),
        v.within(g.spec_resolution()),
        at[0] == v.x / 8 && at[1] == v.y / 8 && at[2] == v.z / 8,
        call_ensures(BrickMarch::begin, (&g, at, dir), begun),
        m.wf(&g),
        n.wf(&g),
        in_brick(v, m.brick()),
        m.answers_brick(&g, Request::Enter { origin: voxel_of(m.brick(), 0, 0, 0), dim: 8, cell_size: 1 }),
        cell[0] == v.x - voxel_of(m.brick(), 0, 0, 0).x,
        cell[1] == v.y - voxel_of(m.brick(), 0, 0, 0).y,
        cell[2] == v.z - voxel_of(m.brick(), 0, 0, 0).z,
        m.enters_to(n, &g, cell, dir, r),
    ensures
        in_brick(v, begun.0.brick()),
        begun.0.voxels is None,
        begun.0.bricks.dir == dir,
        n.voxel() == v,
        n.brick() == m.brick(),
        g.occ(v) ==> r == Request::Hit(v),
        !g.occ(v) ==> r == Request::Advance,
{
    lemma_side_bricks(g.resolution);
    lemma_pow4_increases(g.resolution.levels() as nat, 14);
    lemma_pow4_range();
    let w = n.voxels->0;
    assert(w.cell[0] == v.x % 8 && w.cell[1] == v.y % 8 && w.cell[2] == v.z % 8);
    assert(begun.0.bricks.cell[0] == at[0]);
    assert(begun.0.bricks.cell[1] == at[1]);
    assert(begun.0.bricks.cell[2] == at[2]);
}

/// A march's step goes to the neighbouring cell of its innermost walk, exactly
/// where its box has one that way. A voxel walk without one ends, in the brick
/// where it was; the brick walk without one misses.
pub proof fn law_march_goes_to_neighbour(
    g: BrickGrid,
    m: BrickMarch,
    n: BrickMarch,
    axis: usize,
    r: Request,
)
    requires
        m.wf(&g),
        axis < 3,
        m.steps_to(n, &g, Some(axis), r),
        -1 <= m.bricks.dir[axis as int] <= 1,
        m.voxels matches Some(w) ==> -1 <= w.dir[axis as int] <= 1,
    ensures
        m.voxels matches Some(w) ==> {
            let next = w.cell[axis as int] + w.dir[axis as int];
            &&& n.bricks == m.bricks
            &&& if w.dir[axis as int] != 0 && 0 <= next < 8 {
                &&& n.voxels matches Some(x) && x.cell[axis as int] == next && forall|o: int|
                    0 <= o < 3 && o != axis ==> #[trigger] x.cell[o] == w.cell[o]
                &&& r == (if g.occ(n.voxel()) {
                    Request::Hit(n.voxel())
                } else {
                    Request::Advance
                })
            } else {
                n.voxels is None && r == Request::Advance
            }
        },
        m.voxels is None ==> {
            let w = m.bricks;
            let next = w.cell[axis as int] + w.dir[axis as int];
            &&& n.voxels is None
            &&& if w.dir[axis as int] != 0 && 0 <= next < brick_side(g.spec_resolution()) {
                &&& n.bricks.cell[axis as int] == next
                &&& forall|o: int|
                    0 <= o < 3 && o != axis ==> #[trigger] n.bricks.cell[o] == w.cell[o]
                &&& r !is Miss
            } else {
                n == m && r == Request::Miss
            }
        },
{
    let w = if m.voxels is Some {
        m.voxels->0
    } else {
        m.bricks
    };
    let cell = w.cell@.update(
        axis as int,
        (w.cell[axis as int] + w.dir[axis as int]) as u32,
    );
    assert(w.cell@.len() == 3);
}

/// The calls of a march are its steps: entering goes into the current brick, a
/// step moves the innermost walk or ends it, and both leave the march in the
/// grid.
pub proof fn law_march_calls(
    m: &mut BrickMarch,
    n: &mut BrickMarch,
    g: BrickGrid,
    cell: [u32; 3],
    dir: [i8; 3],
    axis: Option<usize>,
    r: Request,
    s: Request,
)
    requires
        old(m).wf(&g),
        old(n).wf(&g),
        axis matches Some(a) ==> a < 3,
        call_ensures(BrickMarch::entered, (m, &g, cell, dir), r),
        call_ensures(BrickMarch::stepped, (n, &g, axis), s),
    ensures
        old(m).enters_to(*final(m), &g, cell, dir, r),
        final(m).wf(&g) && final(m).brick() == old(m).brick() && final(m).voxels is Some,
        old(n).steps_to(*final(n), &g, axis, s),
        final(n).wf(&g),
        s is Miss ==> *final(n) == *old(n) && old(n).voxels is None,
        r matches Request::Hit(v) ==> g.occ(v) && v == final(m).voxel(),
        s matches Request::Hit(v) ==> g.occ(v) && v == final(n).voxel(),
{
}

/// A dense grid of a field holds the field's voxels, and a brick of it reads
/// occupied exactly where the field has a voxel in it.
pub proof fn law_grid_holds_field<F: OccupancyField>(
    field: &F,
    g: BrickGrid,
    side: u32,
    b: [u32; 3],
    occupied: bool,
    c: VoxelCoord,
    resolution: Resolution,
)
    requires
        field.valid(),
        bricks_fit(field.grid()),
        call_ensures(BrickGrid::from_field::<F>, (field,), g),
        call_ensures(BrickGrid::bricks_per_axis, (&g,), side),
        call_ensures(BrickGrid::resolution, (&g,), resolution),
        call_ensures(BrickGrid::is_brick_occupied, (&g, b), occupied),
        field.grid().wf(),
    ensures
        g.occ(c) <==> c.within(field.grid()) && field.occ(c),
        resolution == field.grid(),
        8 * side == field.grid().side(),
        c.within(field.grid()) && field.occ(c) && in_brick(c, brick(b)) ==> occupied,
        occupied ==> b[0] < side && b[1] < side && b[2] < side,
{
    lemma_pow4_increases(0, field.grid().levels() as nat);
    assert(g.occ(c) == (c.within(field.grid()) && field.occ(c)));
}

/// A march begins at the given brick where the grid has it, and a brick is
/// entered at the given voxel where it has that; else at the last one on each
/// axis that goes beyond.
pub proof fn law_march_begins_inside(
    g: BrickGrid,
    begun: (BrickMarch, Request),
    m: &mut BrickMarch,
    cell: [u32; 3],
    dir: [i8; 3],
    r: Request,
    a: int,
)
    requires
        g.wf(),
        old(m).wf(&g),
        call_ensures(BrickMarch::begin, (&g, cell, dir), begun),
        call_ensures(BrickMarch::entered, (m, &g, cell, dir), r),
        0 <= a < 3,
    ensures
        ({
            let b = begun.0.bricks.cell[a];
            let last = g.spec_resolution().side() as int / 8 - 1;
            &&& b <= cell[a] && b <= last
            &&& b == cell[a] || b == last
        }),
        ({
            let v = (final(m).voxels->0).cell[a];
            &&& v <= cell[a] && v <= 7
            &&& v == cell[a] || v == 7
        }),
{
    assert(begun.0.bricks.cell[a] == begun.0.bricks.cell[a]);
    assert((final(m).voxels->0).cell[a] == (final(m).voxels->0).cell[a]);
}

} // verus!
