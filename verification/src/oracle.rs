//! The reference march: a single-level walk over every voxel of a field.

use crate::coord::VoxelCoord;
use crate::occupancy::OccupancyField;
use crate::resolution::Resolution;
use crate::traverse::{in_cube, Request, Walk};
use vstd::prelude::*;

verus! {

/// A ray's march through a field, voxel by voxel: no hierarchy, no skipping.
#[derive(Debug, Clone, Copy)]
pub struct FieldMarch {
    /// The walk over the grid's voxels.
    pub walk: Walk,
}

impl FieldMarch {
    /// The walk is inside the field's grid.
    pub open spec fn wf<F: OccupancyField>(self, field: &F) -> bool {
        &&& field.valid()
        &&& self.walk.wf()
        &&& self.walk.dim == field.grid().side()
    }

    /// The current voxel.
    pub open spec fn voxel(self) -> VoxelCoord {
        VoxelCoord { x: self.walk.cell[0], y: self.walk.cell[1], z: self.walk.cell[2] }
    }

    /// `request` is right for the current voxel: a hit where it is occupied,
    /// else pass on.
    pub open spec fn answers<F: OccupancyField>(self, field: &F, request: Request) -> bool {
        request == if field.occ(self.voxel()) {
            Request::Hit(self.voxel())
        } else {
            Request::Advance
        }
    }

    /// `next` is one voxel further along `axis`, and `request` is right there;
    /// or that leaves the grid, and the ray misses.
    pub open spec fn steps_to<F: OccupancyField>(
        self,
        next: Self,
        field: &F,
        axis: Option<usize>,
        request: Request,
    ) -> bool {
        let w = self.walk;
        if axis is Some && w.can_step(axis->0 as int) {
            &&& next.walk.cell@ == w.cell@.update(
                axis->0 as int,
                (w.cell[axis->0 as int] + w.dir[axis->0 as int]) as u32,
            )
            &&& next.walk.dir == w.dir
            &&& next.answers(field, request)
        } else {
            next == self && request == Request::Miss
        }
    }

    /// What the driver enters first: the whole grid, in cells of one voxel.
    pub fn start<F: OccupancyField>(field: &F) -> (r: Request)
        ensures
            r == (Request::Enter {
                origin: VoxelCoord { x: 0, y: 0, z: 0 },
                dim: field.grid().side(),
                cell_size: 1,
            }),
    {
        let resolution: Resolution = field.resolution();
        let dim: u32 = resolution.voxels_per_axis();
        Request::Enter { origin: VoxelCoord::new(0, 0, 0), dim, cell_size: 1 }
    }

    /// Begins at the voxel the ray enters the grid in.
    pub fn begin<F: OccupancyField>(field: &F, cell: [u32; 3], dir: [i8; 3]) -> (r: (Self, Request))
        requires
            field.valid(),
        ensures
            r.0.wf(field),
            r.0.walk.dir == dir,
            forall|a: int|
                0 <= a < 3 ==> #[trigger] r.0.walk.cell[a] == if cell[a] < field.grid().side() {
                    cell[a] as int
                } else {
                    field.grid().side() - 1
                },
            r.0.answers(field, r.1),
    {
        let resolution: Resolution = field.resolution();
        let dim: u32 = resolution.voxels_per_axis();
        proof {
            crate::resolution::lemma_pow4_increases(0, resolution.levels() as nat);
        }
        let march = FieldMarch { walk: Walk::enter(cell, dir, dim) };
        let request: Request = march.examine(field);
        (march, request)
    }

    /// Moves one voxel along `axis`; where that leaves the grid, the ray misses.
    pub fn stepped<F: OccupancyField>(&mut self, field: &F, axis: Option<usize>) -> (r: Request)
        requires
            old(self).wf(field),
            axis matches Some(a) ==> a < 3,
        ensures
            final(self).wf(field),
            old(self).steps_to(*final(self), field, axis, r),
    {
        let mut w: Walk = self.walk;
        let moved: bool = match axis {
            Some(a) => w.step(a),
            None => false,
        };
        if moved {
            self.walk = w;
            self.examine(field)
        } else {
            Request::Miss
        }
    }

    fn examine<F: OccupancyField>(&self, field: &F) -> (r: Request)
        requires
            self.wf(field),
        ensures
            self.answers(field, r),
    {
        let c = VoxelCoord::new(self.walk.cell[0], self.walk.cell[1], self.walk.cell[2]);
        if field.is_occupied(c) {
            Request::Hit(c)
        } else {
            Request::Advance
        }
    }
}

/// The reference march enters the whole grid, voxel by voxel, at the voxel it is
/// given, and answers for that voxel.
pub proof fn law_reference_begins_at_voxel<F: OccupancyField>(
    field: &F,
    first: Request,
    begun: (FieldMarch, Request),
    cell: [u32; 3],
    dir: [i8; 3],
    v: VoxelCoord,
)
    requires
        field.valid(),
        field.grid().wf(),
        v.within(field.grid()),
        cell@ == seq![v.x, v.y, v.z],
        call_ensures(FieldMarch::start::<F>, (field,), first),
        call_ensures(FieldMarch::begin::<F>, (field, cell, dir), begun),
    ensures
        first matches Request::Enter { origin, dim, cell_size } && dim * cell_size
            == field.grid().side() && cell_size == 1 && in_cube(v, origin, dim * cell_size),
        begun.0.voxel() == v,
        begun.0.walk.dir == dir,
        field.occ(v) ==> begun.1 == Request::Hit(v),
        !field.occ(v) ==> begun.1 == Request::Advance,
{
    let side = field.grid().side();
    assert(first == (Request::Enter {
        origin: VoxelCoord { x: 0, y: 0, z: 0 },
        dim: side,
        cell_size: 1,
    }));
    assert(side * 1u32 == side) by (nonlinear_arith);
    assert(cell@[0] == v.x && cell@[1] == v.y && cell@[2] == v.z);
    assert(begun.0.walk.cell[0] == v.x);
    assert(begun.0.walk.cell[1] == v.y);
    assert(begun.0.walk.cell[2] == v.z);
}

/// Its step goes to the neighbouring voxel, exactly where the grid has one that
/// way; else the ray misses.
pub proof fn law_reference_goes_to_neighbour<F: OccupancyField>(
    field: &F,
    m: FieldMarch,
    n: FieldMarch,
    axis: usize,
    r: Request,
)
    requires
        m.wf(field),
        axis < 3,
        -1 <= m.walk.dir[axis as int] <= 1,
        m.steps_to(n, field, Some(axis), r),
    ensures
        ({
            let d = m.walk.dir[axis as int];
            let next = m.walk.cell[axis as int] + d;
            if d != 0 && 0 <= next < field.grid().side() {
                &&& n.walk.cell[axis as int] == next
                &&& forall|o: int|
                    0 <= o < 3 && o != axis ==> #[trigger] n.walk.cell[o] == m.walk.cell[o]
                &&& r == (if field.occ(n.voxel()) {
                    Request::Hit(n.voxel())
                } else {
                    Request::Advance
                })
            } else {
                n == m && r == Request::Miss
            }
        }),
{
    let w = m.walk;
    let cell = w.cell@.update(
        axis as int,
        (w.cell[axis as int] + w.dir[axis as int]) as u32,
    );
    assert(w.cell@.len() == 3);
}

/// A call steps the march: it moves one voxel or misses, and stays in the grid.
pub proof fn law_reference_calls<F: OccupancyField>(
    m: &mut FieldMarch,
    field: &F,
    axis: Option<usize>,
    r: Request,
)
    requires
        old(m).wf(field),
        axis matches Some(a) ==> a < 3,
        call_ensures(FieldMarch::stepped::<F>, (m, field, axis), r),
    ensures
        old(m).steps_to(*final(m), field, axis, r),
        final(m).wf(field),
        r is Miss ==> *final(m) == *old(m),
        r matches Request::Hit(v) ==> field.occ(v) && v == final(m).voxel(),
{
}

/// The reference march begins at the given voxel where the grid has it, else at
/// the last one on each axis that goes beyond.
pub proof fn law_reference_begins_inside<F: OccupancyField>(
    field: &F,
    begun: (FieldMarch, Request),
    cell: [u32; 3],
    dir: [i8; 3],
    a: int,
)
    requires
        field.valid(),
        call_ensures(FieldMarch::begin::<F>, (field, cell, dir), begun),
        0 <= a < 3,
    ensures
        ({
            let v = begun.0.walk.cell[a];
            &&& v <= cell[a] && v <= field.grid().side() - 1
            &&& v == cell[a] || v == field.grid().side() - 1
        }),
{
    assert(begun.0.walk.cell[a] == begun.0.walk.cell[a]);
}

} // verus!
