//! Hierarchical grid traversal as a decision machine.
//!
//! A ray march alternates two kinds of work. Geometry (where a ray enters a
//! box, which cell boundary it crosses next, whether it can reach a box) is the
//! driver's. Everything else is decided here, on integers: which cell is
//! current, what is stored there, when to descend, when to ascend, what is a
//! hit. The machine says what it needs next in a [`Request`]; the driver
//! answers.

use crate::bits::{lemma_ones_zero, ones};
use crate::coord::VoxelCoord;
use crate::layout::{descends, stores, toward, Cell, NodeLayout};
use crate::leaf::{LeafBounds, LeafBrick, BOUNDS_SCAN_LIMIT};
use crate::levels::lemma_ancestor_morton;
use crate::morton::{lemma_local_range, lemma_morton_cell4, local_index, morton};
use crate::node::child_bit;
use crate::resolution::{lemma_pow4_increases, lemma_side_is_pow2, pow4, Resolution};
use vstd::arithmetic::div_mod::{lemma_div_denominator, lemma_fundamental_div_mod_converse};
use vstd::bits::{lemma_u32_pow2_no_overflow, lemma_u32_shl_is_mul};
use vstd::prelude::*;

verus! {

/// The axis whose next boundary comes first, from pairwise comparisons; ties
/// break toward the lowest axis.
pub fn nearest_axis(y_before_x: bool, z_before_x: bool, z_before_y: bool) -> (r: usize)
    ensures
        r == 1 <==> y_before_x && !z_before_y,
        r == 2 <==> if y_before_x {
            z_before_y
        } else {
            z_before_x
        },
        r == 0 <==> !y_before_x && !z_before_x,
        r < 3,
{
    if y_before_x {
        if z_before_y {
            2
        } else {
            1
        }
    } else if z_before_x {
        2
    } else {
        0
    }
}

/// The integer half of a walk through a `dim³` grid: the current cell and the
/// per-axis step directions (`-1`, `0`, or `+1`).
#[derive(Debug, Clone, Copy, PartialEq, Eq)]
pub struct Walk {
    /// Current cell, each component in `[0, dim)`.
    pub cell: [u32; 3],
    /// Per-axis step direction.
    pub dir: [i8; 3],
    /// Cells per axis.
    pub dim: u32,
}

impl Walk {
    /// The current cell lies in the grid.
    pub open spec fn wf(self) -> bool {
        &&& self.dim > 0
        &&& self.cell[0] < self.dim
        &&& self.cell[1] < self.dim
        &&& self.cell[2] < self.dim
    }

    /// Starts at `cell`, clamped into the grid.
    #[must_use]
    pub fn enter(cell: [u32; 3], dir: [i8; 3], dim: u32) -> (r: Self)
        requires
            dim > 0,
        ensures
            r.wf(),
            r.dim == dim,
            r.dir == dir,
            forall|a: int|
                0 <= a < 3 ==> #[trigger] r.cell[a] == if cell[a] < dim {
                    cell[a]
                } else {
                    (dim - 1) as u32
                },
    {
        let x: u32 = if cell[0] < dim {
            cell[0]
        } else {
            dim - 1
        };
        let y: u32 = if cell[1] < dim {
            cell[1]
        } else {
            dim - 1
        };
        let z: u32 = if cell[2] < dim {
            cell[2]
        } else {
            dim - 1
        };
        Walk { cell: [x, y, z], dir, dim }
    }

    /// Whether a step along `axis` stays in the grid.
    pub open spec fn can_step(self, axis: int) -> bool {
        ||| self.dir[axis] == 1 && self.cell[axis] + 1 < self.dim
        ||| self.dir[axis] == -1 && self.cell[axis] > 0
    }

    /// Advances one cell along `axis`. Returns `false`, and leaves the walk
    /// unchanged, when that would leave the grid.
    pub fn step(&mut self, axis: usize) -> (r: bool)
        requires
            old(self).wf(),
            axis < 3,
        ensures
            final(self).wf(),
            final(self).dim == old(self).dim,
            final(self).dir == old(self).dir,
            r == old(self).can_step(axis as int),
            r ==> final(self).cell@ == old(self).cell@.update(
                axis as int,
                (old(self).cell[axis as int] + old(self).dir[axis as int]) as u32,
            ),
            !r ==> *final(self) == *old(self),
    {
        let d: i8 = self.dir[axis];
        let v: u32 = self.cell[axis];
        if d == 1 {
            if v + 1 >= self.dim {
                return false;
            }
            self.cell[axis] = v + 1;
            true
        } else if d == -1 {
            if v == 0 {
                return false;
            }
            self.cell[axis] = v - 1;
            true
        } else {
            false
        }
    }
}

/// What the machine needs next.
#[derive(Debug, Clone, Copy, PartialEq, Eq, Structural)]
pub enum Request {
    /// Enter the box of `dim³` cells of edge `cell_size` at `origin` (base
    /// voxels): say in which cell and in which directions.
    Enter {
        /// Lower corner in base voxels.
        origin: VoxelCoord,
        /// Cells per axis.
        dim: u32,
        /// Cell edge in base voxels.
        cell_size: u32,
    },
    /// Advance the innermost walk: say along which axis, if any.
    Advance,
    /// Say whether the ray can reach the box `[lo, hi)`.
    Reach {
        /// Inclusive lower corner in base voxels.
        lo: VoxelCoord,
        /// Exclusive upper corner in base voxels.
        hi: VoxelCoord,
    },
    /// The first stored voxel.
    Hit(VoxelCoord),
    /// The ray leaves the grid without meeting a stored voxel.
    Miss,
}

/// Per-ray traversal counters.
#[derive(Debug, Clone, Copy, PartialEq, Eq, Structural)]
pub struct TraversalStats {
    /// Cells descended into, including the root.
    pub descents: u64,
    /// Cells examined across all levels.
    pub cell_steps: u64,
}

impl Default for TraversalStats {
    fn default() -> (r: Self)
        ensures
            r == (TraversalStats { descents: 0, cell_steps: 0 }),
    {
        TraversalStats { descents: 0, cell_steps: 0 }
    }
}

/// Edge in base voxels of a cell at `level`: `8 · 4^(level − 1)`, for leaf bricks
/// (`level = 1`) and above.
pub open spec fn extent(level: nat) -> nat {
    8 * pow4((level - 1) as nat)
}

/// Edge in base voxels of the cells a frame at `level` walks: `1` inside a leaf
/// brick, a cell of the level below otherwise.
pub open spec fn step_size(level: nat) -> nat {
    if level <= 1 {
        1
    } else {
        extent((level - 1) as nat)
    }
}

/// `v` lies in the cube of edge `size` at `origin`.
pub open spec fn in_cube(v: VoxelCoord, origin: VoxelCoord, size: int) -> bool {
    &&& origin.x <= v.x < origin.x + size
    &&& origin.y <= v.y < origin.y + size
    &&& origin.z <= v.z < origin.z + size
}

/// Child cell edge in base voxels for a `level`-internal frame's `4³` walk, or
/// `1` for the leaf frame's `8³` walk.
pub fn frame_cell_size(level: u32) -> (r: u32)
    requires
        1 <= level <= 15,
    ensures
        r == step_size(level as nat),
        r >= 1,
{
    if level == 1 {
        1
    } else {
        proof {
            let s = (2 * level - 1) as nat;
            lemma_u32_pow2_no_overflow(s);
            lemma_side_is_pow2((level - 2) as nat);
            lemma_u32_shl_is_mul(1, s as u32);
            lemma_pow4_increases(0, (level - 2) as nat);
        }
        1 << (2 * level - 1)
    }
}

/// One level of a descent: a cell, its place, and the walk through its children.
#[derive(Debug, Clone, Copy)]
pub struct Frame {
    /// Node handle, or leaf index at level 1.
    pub node: u32,
    /// Traversal level: 1 for a leaf brick, above for internal nodes.
    pub level: u32,
    /// Lower corner in base voxels.
    pub origin: VoxelCoord,
    /// The walk through the frame's cells.
    pub walk: Walk,
}

impl Frame {
    /// The frame's cell.
    pub open spec fn cell(self) -> Cell {
        if self.level <= 1 {
            Cell::Leaf(self.node)
        } else {
            Cell::Node(self.node)
        }
    }

    /// The frame is a cell of the layout, in its own place: a voxel inside its
    /// cube is stored exactly where a descent from it finds it.
    pub open spec fn of<L: NodeLayout>(self, l: &L) -> bool {
        &&& 1 <= self.level <= l.grid().levels() + 1
        &&& self.level == 1 ==> l.leaf_ok(self.node)
        &&& self.level >= 2 ==> l.node_ok(self.node, self.level)
        &&& self.walk.dim == if self.level == 1 {
            8int
        } else {
            4
        }
        &&& self.walk.wf()
        &&& self.origin.x % (extent(self.level as nat) as u32) == 0
        &&& self.origin.y % (extent(self.level as nat) as u32) == 0
        &&& self.origin.z % (extent(self.level as nat) as u32) == 0
        &&& self.origin.x + extent(self.level as nat) <= l.grid().side()
        &&& self.origin.y + extent(self.level as nat) <= l.grid().side()
        &&& self.origin.z + extent(self.level as nat) <= l.grid().side()
        &&& forall|v: VoxelCoord|
            in_cube(v, self.origin, extent(self.level as nat) as int) ==> #[trigger] stores(l, v)
                == descends(l, self.cell(), self.level as nat, v)
    }

    /// Lower corner of the current cell.
    pub open spec fn here(self) -> VoxelCoord {
        let s = step_size(self.level as nat);
        VoxelCoord {
            x: (self.origin.x + self.walk.cell[0] * s) as u32,
            y: (self.origin.y + self.walk.cell[1] * s) as u32,
            z: (self.origin.z + self.walk.cell[2] * s) as u32,
        }
    }

    /// `v` lies in the frame's current cell.
    pub open spec fn covers(self, v: VoxelCoord) -> bool {
        in_cube(v, self.here(), step_size(self.level as nat) as int)
    }
}

/// The child of the frame's current cell.
pub open spec fn spec_child_here<L: NodeLayout>(l: &L, f: Frame) -> Cell {
    l.spec_child(
        f.node,
        f.level,
        morton(f.walk.cell[0] as nat, f.walk.cell[1] as nat, f.walk.cell[2] as nat) as u32,
    )
}

/// What to ask of a leaf brick at `here` with bounds `b`: whether the ray reaches
/// them, or to enter right away where they are the whole brick.
pub open spec fn asks_leaf(here: VoxelCoord, b: LeafBounds) -> Request {
    if b.is_full() {
        Request::Enter { origin: here, dim: 8, cell_size: 1 }
    } else {
        Request::Reach {
            lo: VoxelCoord {
                x: (here.x + b.min[0]) as u32,
                y: (here.y + b.min[1]) as u32,
                z: (here.z + b.min[2]) as u32,
            },
            hi: VoxelCoord {
                x: (here.x + b.max[0] + 1) as u32,
                y: (here.y + b.max[1] + 1) as u32,
                z: (here.z + b.max[2] + 1) as u32,
            },
        }
    }
}

/// `request` is the one for the cell the frame is at. A leaf's voxel is hit where
/// it is stored. A node's child is passed by where it is absent, entered where
/// it is a node, and where it is a leaf its bounds decide.
pub open spec fn answers_cell<L: NodeLayout>(l: &L, frame: Frame, request: Request) -> bool {
    if frame.level <= 1 {
        request == if stores(l, frame.here()) {
            Request::Hit(frame.here())
        } else {
            Request::Advance
        }
    } else {
        match spec_child_here(l, frame) {
            Cell::Empty => request == Request::Advance,
            Cell::Node(_) => frame.level > 2 && request == (Request::Enter {
                origin: frame.here(),
                dim: 4,
                cell_size: step_size((frame.level - 1) as nat) as u32,
            }),
            Cell::Leaf(idx) => frame.level == 2 && exists|b: LeafBounds| #[trigger]
                l.spec_leaf(idx).bounded_by(b) && request == asks_leaf(frame.here(), b),
        }
    }
}

/// A ray's descent through a layout: the stack of frames from the root to the
/// innermost walk, and the counters.
#[derive(Debug, Clone)]
pub struct Traversal {
    /// The frames, root first.
    pub stack: Vec<Frame>,
    /// The child about to be entered, once its box is known to be reached.
    pub pending: Cell,
    /// The counters.
    pub stats: TraversalStats,
}

impl Traversal {
    /// Every frame is a cell of the layout in its place.
    pub open spec fn wf<L: NodeLayout>(self, l: &L) -> bool {
        &&& l.valid()
        &&& l.grid().wf()
        &&& forall|i: int| 0 <= i < self.stack@.len() ==> (#[trigger] self.stack@[i]).of(l)
    }

    /// The counters have room.
    pub open spec fn has_room(self) -> bool {
        self.stats.descents < u64::MAX && self.stats.cell_steps < u64::MAX
    }

    /// The innermost frame.
    pub open spec fn top(self) -> Frame {
        self.stack@.last()
    }

    /// Begins at the root: enter its box, or a miss where nothing is stored.
    pub fn start<L: NodeLayout>(layout: &L) -> (r: (Self, Request))
        requires
            layout.valid(),
        ensures
            r.0.wf(layout),
            starts(layout, r.0, r.1),
    {
        let resolution: Resolution = layout.resolution();
        let k: u32 = resolution.internal_levels();
        let root: Cell = layout.root();
        let t = Traversal { stack: Vec::new(), pending: root, stats: TraversalStats::default() };
        let request = match root {
            Cell::Empty => Request::Miss,
            Cell::Leaf(_) => Request::Enter {
                origin: VoxelCoord::new(0, 0, 0),
                dim: 8,
                cell_size: 1,
            },
            Cell::Node(_) => {
                let size: u32 = frame_cell_size(k + 1);
                Request::Enter { origin: VoxelCoord::new(0, 0, 0), dim: 4, cell_size: size }
            },
        };
        (t, request)
    }

    /// How many frames are open.
    #[must_use]
    pub fn depth(&self) -> (r: usize)
        ensures
            r == self.stack@.len(),
    {
        self.stack.len()
    }

    /// The pending child can be entered: the root of an empty stack, or the
    /// child of the innermost frame's current cell.
    pub open spec fn can_enter<L: NodeLayout>(self, l: &L) -> bool {
        if self.stack@.len() == 0 {
            self.pending == l.spec_root() && self.pending != Cell::Empty
        } else {
            self.top().level >= 2 && self.pending == spec_child_here(l, self.top()) && self.pending
                != Cell::Empty
        }
    }

    /// Opens the pending child's frame at the cell the driver entered, and
    /// examines that cell.
    pub fn entered<L: NodeLayout>(&mut self, layout: &L, cell: [u32; 3], dir: [i8; 3]) -> (r:
        Request)
        requires
            old(self).wf(layout),
            old(self).has_room(),
            old(self).can_enter(layout),
        ensures
            final(self).wf(layout),
            opens(layout, *old(self), *final(self), cell, dir, r),
    {
        let ghost before = *self;
        let resolution: Resolution = layout.resolution();
        let k: u32 = resolution.internal_levels();
        let (level, origin) = if self.stack.len() == 0 {
            let root: Cell = layout.root();
            (k + 1, VoxelCoord::new(0, 0, 0))
        } else {
            let f: Frame = self.stack[self.stack.len() - 1];
            proof {
                assert(before.stack@[before.stack@.len() - 1].of(layout));
                lemma_here_fits(layout, f);
            }
            let s: u32 = frame_cell_size(f.level);
            let bit: u32 = child_bit(f.walk.cell[0], f.walk.cell[1], f.walk.cell[2]);
            let child: Cell = layout.child(f.node, f.level, bit);
            (
                f.level - 1,
                VoxelCoord::new(
                    f.origin.x + f.walk.cell[0] * s,
                    f.origin.y + f.walk.cell[1] * s,
                    f.origin.z + f.walk.cell[2] * s,
                ),
            )
        };
        let node: u32 = match self.pending {
            Cell::Node(n) => n,
            Cell::Leaf(i) => i,
            Cell::Empty => 0,
        };
        let dim: u32 = if level == 1 {
            8
        } else {
            4
        };
        let frame = Frame { node, level, origin, walk: Walk::enter(cell, dir, dim) };
        proof {
            if before.stack@.len() == 0 {
                lemma_root_frame(layout, frame);
            } else {
                lemma_child_frame(layout, before.top(), frame);
            }
        }
        self.stack.push(frame);
        self.stats.descents = self.stats.descents + 1;
        assert(self.stack@.drop_last() =~= before.stack@);
        self.examine(layout)
    }

    /// Moves the innermost walk one cell along `axis` and examines the new cell.
    /// Where the walk cannot move, or there is no axis, its frame closes; the
    /// enclosing walk is next to advance, and after the last one the ray misses.
    pub fn stepped<L: NodeLayout>(&mut self, layout: &L, axis: Option<usize>) -> (r: Request)
        requires
            old(self).wf(layout),
            old(self).has_room(),
            old(self).stack@.len() > 0,
            axis matches Some(a) ==> a < 3,
        ensures
            final(self).wf(layout),
            advances(layout, *old(self), *final(self), axis, r),
    {
        let ghost before = *self;
        let last: usize = self.stack.len() - 1;
        let mut frame: Frame = self.stack[last];
        assert(before.stack@[last as int].of(layout));
        let moved: bool = match axis {
            Some(a) => frame.walk.step(a),
            None => false,
        };
        if moved {
            self.stack[last] = frame;
            proof {
                assert(self.stack@.drop_last() =~= before.stack@.drop_last());
                assert(frame.of(layout));
            }
            return self.examine(layout);
        }
        self.stack.pop();
        proof {
            assert(self.stack@ =~= before.stack@.drop_last());
            assert forall|i: int| 0 <= i < self.stack@.len() implies (
            #[trigger] self.stack@[i]).of(layout) by {
                assert(before.stack@[i].of(layout));
            }
        }
        if self.stack.len() == 0 {
            Request::Miss
        } else {
            Request::Advance
        }
    }

    /// Takes the driver's answer on whether the ray reaches the pending leaf's
    /// box: enter it, or pass it by.
    pub fn reached<L: NodeLayout>(&mut self, layout: &L, reaches: bool) -> (r: Request)
        requires
            old(self).wf(layout),
            old(self).stack@.len() > 0,
            old(self).can_enter(layout),
            old(self).top().level == 2,
        ensures
            *final(self) == *old(self),
            r == decides(*old(self), reaches),
    {
        if reaches {
            let f: Frame = self.stack[self.stack.len() - 1];
            proof {
                assert(self.stack@[self.stack@.len() - 1].of(layout));
                lemma_here_fits(layout, f);
            }
            let s: u32 = frame_cell_size(f.level);
            let origin = VoxelCoord::new(
                f.origin.x + f.walk.cell[0] * s,
                f.origin.y + f.walk.cell[1] * s,
                f.origin.z + f.walk.cell[2] * s,
            );
            Request::Enter { origin, dim: 8, cell_size: 1 }
        } else {
            Request::Advance
        }
    }

    /// Examines the innermost walk's current cell.
    fn examine<L: NodeLayout>(&mut self, layout: &L) -> (r: Request)
        requires
            old(self).wf(layout),
            old(self).stack@.len() > 0,
            old(self).stats.cell_steps < u64::MAX,
        ensures
            final(self).wf(layout),
            final(self).stack == old(self).stack,
            final(self).stats.descents == old(self).stats.descents,
            final(self).stats.cell_steps == old(self).stats.cell_steps + 1,
            answers_cell(layout, old(self).top(), r),
            final(self).pending == if old(self).top().level <= 1 {
                old(self).pending
            } else {
                spec_child_here(layout, old(self).top())
            },
    {
        let f: Frame = self.stack[self.stack.len() - 1];
        proof {
            assert(self.stack@[self.stack@.len() - 1].of(layout));
            lemma_here_fits(layout, f);
        }
        self.stats.cell_steps = self.stats.cell_steps + 1;
        let resolution: Resolution = layout.resolution();
        let k: u32 = resolution.internal_levels();
        let s: u32 = frame_cell_size(f.level);
        let here = VoxelCoord::new(
            f.origin.x + f.walk.cell[0] * s,
            f.origin.y + f.walk.cell[1] * s,
            f.origin.z + f.walk.cell[2] * s,
        );
        assert(here == f.here());
        if f.level == 1 {
            let leaf: &LeafBrick = layout.leaf(f.node);
            let set: bool = leaf.get_local(f.walk.cell[0], f.walk.cell[1], f.walk.cell[2]);
            proof {
                lemma_leaf_cell(layout, f);
            }
            if set {
                Request::Hit(here)
            } else {
                Request::Advance
            }
        } else {
            let bit: u32 = child_bit(f.walk.cell[0], f.walk.cell[1], f.walk.cell[2]);
            let child: Cell = layout.child(f.node, f.level, bit);
            self.pending = child;
            proof {
                lemma_node_cell(layout, f);
            }
            match child {
                Cell::Empty => Request::Advance,
                Cell::Node(_) => {
                    let size: u32 = frame_cell_size(f.level - 1);
                    Request::Enter { origin: here, dim: 4, cell_size: size }
                },
                Cell::Leaf(idx) => {
                    let b: LeafBounds = layout.leaf_bounds(idx);
                    let whole: bool = b.min[0] == 0 && b.min[1] == 0 && b.min[2] == 0 && b.max[0]
                        == 7 && b.max[1] == 7 && b.max[2] == 7;
                    proof {
                        lemma_full_by_fields(b);
                        assert(layout.spec_leaf(idx).bounded_by(b));
                    }
                    if whole {
                        Request::Enter { origin: here, dim: 8, cell_size: 1 }
                    } else {
                        proof {
                            lemma_here_aligned(layout, f);
                            lemma_reach_box(layout, f, idx, b);
                        }
                        Request::Reach {
                            lo: VoxelCoord::new(
                                here.x + b.min[0],
                                here.y + b.min[1],
                                here.z + b.min[2],
                            ),
                            hi: VoxelCoord::new(
                                here.x + b.max[0] + 1,
                                here.y + b.max[1] + 1,
                                here.z + b.max[2] + 1,
                            ),
                        }
                    }
                },
            }
        }
    }
}

/// `t` is a descent about to begin, and `r` asks for the root's box, or is a miss
/// where there is no root.
pub open spec fn starts<L: NodeLayout>(l: &L, t: Traversal, r: Request) -> bool {
    &&& t.stack@.len() == 0
    &&& t.stats == (TraversalStats { descents: 0, cell_steps: 0 })
    &&& t.pending == l.spec_root()
    &&& r == if l.spec_root() == Cell::Empty {
        Request::Miss
    } else {
        Request::Enter {
            origin: VoxelCoord { x: 0, y: 0, z: 0 },
            dim: if l.grid().levels() == 0 {
                8
            } else {
                4
            },
            cell_size: step_size((l.grid().levels() + 1) as nat) as u32,
        }
    }
}

/// `b` has `a`'s pending child open at the cell `cell` (clamped), and `r` answers
/// that cell.
pub open spec fn opens<L: NodeLayout>(
    l: &L,
    a: Traversal,
    b: Traversal,
    cell: [u32; 3],
    dir: [i8; 3],
    r: Request,
) -> bool {
    &&& b.stack@.len() == a.stack@.len() + 1
    &&& b.stack@.drop_last() == a.stack@
    &&& b.top().cell() == a.pending
    &&& b.top().level == if a.stack@.len() == 0 {
        l.grid().levels() + 1
    } else {
        a.top().level - 1
    }
    &&& b.top().origin == if a.stack@.len() == 0 {
        VoxelCoord { x: 0, y: 0, z: 0 }
    } else {
        a.top().here()
    }
    &&& b.top().walk.dim == if b.top().level == 1 {
        8int
    } else {
        4
    }
    &&& b.top().walk.dir == dir
    &&& forall|i: int|
        0 <= i < 3 ==> #[trigger] b.top().walk.cell[i] == if cell[i] < b.top().walk.dim {
            cell[i] as int
        } else {
            b.top().walk.dim - 1
        }
    &&& b.stats == (TraversalStats {
        descents: (a.stats.descents + 1) as u64,
        cell_steps: (a.stats.cell_steps + 1) as u64,
    })
    &&& answers_cell(l, b.top(), r)
    &&& b.pending == if b.top().level <= 1 {
        a.pending
    } else {
        spec_child_here(l, b.top())
    }
}

/// `b` has `a`'s innermost walk moved along `axis`, and `r` answers the new cell;
/// or, where it cannot move, its frame closed.
pub open spec fn advances<L: NodeLayout>(
    l: &L,
    a: Traversal,
    b: Traversal,
    axis: Option<usize>,
    r: Request,
) -> bool {
    let f = a.top();
    let g = b.top();
    if axis is Some && f.walk.can_step(axis->0 as int) {
        &&& b.stack@.len() == a.stack@.len()
        &&& b.stack@.drop_last() == a.stack@.drop_last()
        &&& g.node == f.node
        &&& g.level == f.level
        &&& g.origin == f.origin
        &&& g.walk.dim == f.walk.dim
        &&& g.walk.dir == f.walk.dir
        &&& g.walk.cell@ == f.walk.cell@.update(
            axis->0 as int,
            (f.walk.cell[axis->0 as int] + f.walk.dir[axis->0 as int]) as u32,
        )
        &&& b.stats == (TraversalStats {
            descents: a.stats.descents,
            cell_steps: (a.stats.cell_steps + 1) as u64,
        })
        &&& answers_cell(l, g, r)
        &&& b.pending == if g.level <= 1 {
            a.pending
        } else {
            spec_child_here(l, g)
        }
    } else {
        &&& b.stack@ == a.stack@.drop_last()
        &&& b.stats == a.stats
        &&& b.pending == a.pending
        &&& r == if a.stack@.len() == 1 {
            Request::Miss
        } else {
            Request::Advance
        }
    }
}

/// What follows the answer on a leaf's bounds: enter the leaf, or pass it by.
pub open spec fn decides(a: Traversal, reaches: bool) -> Request {
    if reaches {
        Request::Enter { origin: a.top().here(), dim: 8, cell_size: 1 }
    } else {
        Request::Advance
    }
}

/// The current cell of a frame lies in the frame's cube, and so in the grid.
proof fn lemma_here_fits<L: NodeLayout>(l: &L, f: Frame)
    requires
        l.grid().wf(),
        f.of(l),
    ensures
        ({
            let s = step_size(f.level as nat) as int;
            let e = extent(f.level as nat) as int;
            let d = f.walk.dim as int;
            &&& s >= 1
            &&& d * s == e
            &&& e <= 0x8000_0000
            &&& f.walk.cell[0] * s + s <= e
            &&& f.walk.cell[1] * s + s <= e
            &&& f.walk.cell[2] * s + s <= e
            &&& 0 <= f.walk.cell[0] * s
            &&& 0 <= f.walk.cell[1] * s
            &&& 0 <= f.walk.cell[2] * s
            &&& f.origin.x + f.walk.cell[0] * s + s <= l.grid().side()
            &&& f.origin.y + f.walk.cell[1] * s + s <= l.grid().side()
            &&& f.origin.z + f.walk.cell[2] * s + s <= l.grid().side()
            &&& l.grid().side() <= 0x8000_0000
        }),
{
    let k = l.grid().levels() as nat;
    lemma_pow4_increases(k, 14);
    crate::resolution::lemma_pow4_range();
    let s = step_size(f.level as nat) as int;
    let e = extent(f.level as nat) as int;
    lemma_pow4_increases((f.level - 1) as nat, k);
    lemma_pow4_increases(0, (f.level - 1) as nat);
    if f.level >= 2 {
        lemma_pow4_increases(0, (f.level - 2) as nat);
        assert(pow4((f.level - 1) as nat) == 4 * pow4((f.level - 2) as nat));
    }
    lemma_cell_fits(f.walk.cell[0] as int, f.walk.dim as int, s);
    lemma_cell_fits(f.walk.cell[1] as int, f.walk.dim as int, s);
    lemma_cell_fits(f.walk.cell[2] as int, f.walk.dim as int, s);
}

proof fn lemma_cell_fits(c: int, d: int, s: int)
    requires
        0 <= c < d,
        1 <= s,
    ensures
        0 <= c * s,
        c * s + s <= d * s,
{
    assert(0 <= c * s && c * s + s <= d * s) by (nonlinear_arith)
        requires
            0 <= c < d,
            1 <= s,
    ;
}

/// The root's frame is in its place.
proof fn lemma_root_frame<L: NodeLayout>(l: &L, f: Frame)
    requires
        l.valid(),
        l.grid().wf(),
        f.cell() == l.spec_root(),
        f.level == l.grid().levels() + 1,
        f.origin == (VoxelCoord { x: 0, y: 0, z: 0 }),
        f.level == 1 ==> l.leaf_ok(f.node),
        f.level >= 2 ==> l.node_ok(f.node, f.level),
        f.walk.wf(),
        f.walk.dim == if f.level == 1 {
            8int
        } else {
            4
        },
    ensures
        f.of(l),
{
    lemma_pow4_increases(0, l.grid().levels() as nat);
    let e = extent(f.level as nat);
    assert(e == l.grid().side());
    let m = e as u32;
    assert(0u32 % m == 0) by (nonlinear_arith)
        requires
            m > 0,
    ;
}

/// Inside a node's cube, the child index toward a voxel is the voxel's cell.
proof fn lemma_toward_cell(f_origin: VoxelCoord, level: nat, x: nat, y: nat, z: nat, v: VoxelCoord)
    requires
        2 <= level <= 15,
        x < 4,
        y < 4,
        z < 4,
        f_origin.x % (extent(level) as u32) == 0,
        f_origin.y % (extent(level) as u32) == 0,
        f_origin.z % (extent(level) as u32) == 0,
        extent(level) <= 0x8000_0000,
        f_origin.x + x * step_size(level) <= v.x < f_origin.x + x * step_size(level) + step_size(
            level,
        ),
        f_origin.y + y * step_size(level) <= v.y < f_origin.y + y * step_size(level) + step_size(
            level,
        ),
        f_origin.z + z * step_size(level) <= v.z < f_origin.z + z * step_size(level) + step_size(
            level,
        ),
    ensures
        toward(v, level) == morton(x, y, z),
        morton(x, y, z) < 64,
{
    let j = (level - 2) as nat;
    let p = pow4(j);
    lemma_pow4_increases(0, j);
    assert(pow4((level - 1) as nat) == 4 * p);
    lemma_axis_toward(f_origin.x as int, x as int, v.x as int, p as int);
    lemma_axis_toward(f_origin.y as int, y as int, v.y as int, p as int);
    lemma_axis_toward(f_origin.z as int, z as int, v.z as int, p as int);
    lemma_ancestor_morton((v.x / 8) as nat, (v.y / 8) as nat, (v.z / 8) as nat, j);
    lemma_morton_cell4(
        (v.x / 8) as nat / p,
        (v.y / 8) as nat / p,
        (v.z / 8) as nat / p,
    );
    lemma_morton_cell4(x, y, z);
}

proof fn lemma_axis_toward(o: int, c: int, v: int, p: int)
    requires
        1 <= p,
        0 <= o,
        0 <= c < 4,
        o % (32 * p) == 0,
        o + c * (8 * p) <= v < o + c * (8 * p) + 8 * p,
    ensures
        v / 8 / p % 4 == c,
{
    let s = 8 * p;
    let q = o / (32 * p);
    vstd::arithmetic::div_mod::lemma_fundamental_div_mod(o, 32 * p);
    let r = v - o - c * s;
    assert(v == (4 * q + c) * s + r) by (nonlinear_arith)
        requires
            o == 32 * p * q,
            s == 8 * p,
            r == v - o - c * s,
    ;
    lemma_fundamental_div_mod_converse(v, s, 4 * q + c, r);
    lemma_div_denominator(v, 8, p);
    assert(0 <= q) by (nonlinear_arith)
        requires
            q == o / (32 * p),
            0 <= o,
            1 <= p,
    ;
    assert((4 * q + c) % 4 == c);
}

/// A child's frame is in its place.
proof fn lemma_child_frame<L: NodeLayout>(l: &L, f: Frame, child: Frame)
    requires
        l.valid(),
        l.grid().wf(),
        f.of(l),
        f.level >= 2,
        child.cell() == spec_child_here(l, f),
        child.level == f.level - 1,
        child.origin == f.here(),
        child.level == 1 ==> l.leaf_ok(child.node),
        child.level >= 2 ==> l.node_ok(child.node, child.level),
        child.walk.wf(),
        child.walk.dim == if child.level == 1 {
            8int
        } else {
            4
        },
    ensures
        child.of(l),
{
    lemma_here_fits(l, f);
    let s = step_size(f.level as nat);
    assert(s == extent(child.level as nat));
    let (x, y, z) = (
        f.walk.cell[0] as nat,
        f.walk.cell[1] as nat,
        f.walk.cell[2] as nat,
    );
    let p = pow4((f.level - 2) as nat) as int;
    lemma_pow4_increases(0, (f.level - 2) as nat);
    assert(pow4((f.level - 1) as nat) == 4 * p);
    lemma_aligned(f.origin.x as int, x as int, p);
    lemma_aligned(f.origin.y as int, y as int, p);
    lemma_aligned(f.origin.z as int, z as int, p);
    assert forall|v: VoxelCoord| in_cube(v, child.origin, s as int) implies #[trigger] stores(l, v)
        == descends(l, child.cell(), child.level as nat, v) by {
        lemma_toward_cell(f.origin, f.level as nat, x, y, z, v);
        assert(in_cube(v, f.origin, extent(f.level as nat) as int));
        assert(descends(l, f.cell(), f.level as nat, v) == descends(
            l,
            l.spec_child(f.node, f.level, toward(v, f.level as nat)),
            (f.level - 1) as nat,
            v,
        ));
    }
}

proof fn lemma_aligned(o: int, c: int, p: int)
    requires
        1 <= p,
        0 <= o,
        0 <= c,
        o % (32 * p) == 0,
    ensures
        (o + c * (8 * p)) % (8 * p) == 0,
{
    let q = o / (32 * p);
    vstd::arithmetic::div_mod::lemma_fundamental_div_mod(o, 32 * p);
    let s = 8 * p;
    assert(o + c * s == (4 * q + c) * s + 0) by (nonlinear_arith)
        requires
            o == 32 * p * q,
            s == 8 * p,
    ;
    lemma_fundamental_div_mod_converse(o + c * s, s, 4 * q + c, 0);
}

/// A leaf frame's current voxel is stored exactly where its bit is set.
proof fn lemma_leaf_cell<L: NodeLayout>(l: &L, f: Frame)
    requires
        l.valid(),
        l.grid().wf(),
        f.of(l),
        f.level == 1,
    ensures
        f.covers(f.here()),
        stores(l, f.here()) == l.spec_leaf(f.node).occ(
            f.walk.cell[0],
            f.walk.cell[1],
            f.walk.cell[2],
        ),
        forall|v: VoxelCoord| #[trigger] stores(l, v) && f.covers(v) ==> v == f.here(),
{
    lemma_here_fits(l, f);
    let h = f.here();
    assert(pow4(0) == 1);
    assert(in_cube(h, f.origin, 8));
    assert(h.x % 8 == f.walk.cell[0] % 8) by {
        assert(f.origin.x % 8 == 0);
    }
    assert(h.y % 8 == f.walk.cell[1] % 8) by {
        assert(f.origin.y % 8 == 0);
    }
    assert(h.z % 8 == f.walk.cell[2] % 8) by {
        assert(f.origin.z % 8 == 0);
    }
    assert(descends(l, f.cell(), 1, h) == l.spec_leaf(f.node).occ(h.x, h.y, h.z));
}

/// Inside a node frame's current cell, what is stored is the child's.
proof fn lemma_node_cell<L: NodeLayout>(l: &L, f: Frame)
    requires
        l.valid(),
        l.grid().wf(),
        f.of(l),
        f.level >= 2,
    ensures
        morton(
            (f.walk.cell[0] % 4) as nat,
            (f.walk.cell[1] % 4) as nat,
            (f.walk.cell[2] % 4) as nat,
        ) == morton(f.walk.cell[0] as nat, f.walk.cell[1] as nat, f.walk.cell[2] as nat),
        forall|v: VoxelCoord|
            f.covers(v) ==> #[trigger] stores(l, v) == descends(
                l,
                spec_child_here(l, f),
                (f.level - 1) as nat,
                v,
            ),
{
    lemma_here_fits(l, f);
    let (x, y, z) = (
        f.walk.cell[0] as nat,
        f.walk.cell[1] as nat,
        f.walk.cell[2] as nat,
    );
    assert forall|v: VoxelCoord| f.covers(v) implies #[trigger] stores(l, v) == descends(
        l,
        spec_child_here(l, f),
        (f.level - 1) as nat,
        v,
    ) by {
        lemma_toward_cell(f.origin, f.level as nat, x, y, z, v);
        assert(in_cube(v, f.origin, extent(f.level as nat) as int));
        assert(descends(l, f.cell(), f.level as nat, v) == descends(
            l,
            l.spec_child(f.node, f.level, toward(v, f.level as nat)),
            (f.level - 1) as nat,
            v,
        ));
    }
}

/// The current cell of a frame above the leaves is a brick, aligned to bricks.
proof fn lemma_here_aligned<L: NodeLayout>(l: &L, f: Frame)
    requires
        l.grid().wf(),
        f.of(l),
        f.level == 2,
    ensures
        step_size(f.level as nat) == 8,
        f.here().x % 8 == 0,
        f.here().y % 8 == 0,
        f.here().z % 8 == 0,
{
    lemma_here_fits(l, f);
    assert(pow4(0) == 1);
    assert(pow4(1) == 4);
    assert(extent(2) == 32);
    assert(step_size(2) == 8);
    assert(f.level as nat == 2);
    lemma_corner_aligned(f.origin.x, f.walk.cell[0], f.here().x);
    lemma_corner_aligned(f.origin.y, f.walk.cell[1], f.here().y);
    lemma_corner_aligned(f.origin.z, f.walk.cell[2], f.here().z);
}

proof fn lemma_corner_aligned(o: u32, c: u32, h: u32)
    requires
        o % 32 == 0,
        h == o + c * 8,
    ensures
        h % 8 == 0,
{
}

/// A leaf's bounds, moved to its place, hold every voxel stored in it.
proof fn lemma_reach_box<L: NodeLayout>(l: &L, f: Frame, idx: u32, b: LeafBounds)
    requires
        step_size(f.level as nat) == 8,
        f.here().x % 8 == 0,
        f.here().y % 8 == 0,
        f.here().z % 8 == 0,
        l.spec_leaf(idx).bounded_by(b),
        forall|v: VoxelCoord|
            f.covers(v) ==> #[trigger] stores(l, v) == descends(l, Cell::Leaf(idx), 1, v),
    ensures
        b.min[0] < 8 && b.min[1] < 8 && b.min[2] < 8,
        b.max[0] < 8 && b.max[1] < 8 && b.max[2] < 8,
        forall|v: VoxelCoord|
            f.covers(v) && #[trigger] stores(l, v) ==> f.here().x + b.min[0] <= v.x < f.here().x
                + b.max[0] + 1 && f.here().y + b.min[1] <= v.y < f.here().y + b.max[1] + 1
                && f.here().z + b.min[2] <= v.z < f.here().z + b.max[2] + 1,
{
    let leaf = l.spec_leaf(idx);
    let h = f.here();
    assert(b.min[0] < 8 && b.max[0] < 8);
    assert(b.min[1] < 8 && b.max[1] < 8);
    assert(b.min[2] < 8 && b.max[2] < 8);
    assert forall|v: VoxelCoord| f.covers(v) && #[trigger] stores(l, v) implies h.x + b.min[0]
        <= v.x < h.x + b.max[0] + 1 && h.y + b.min[1] <= v.y < h.y + b.max[1] + 1 && h.z + b.min[2]
        <= v.z < h.z + b.max[2] + 1 by {
        assert(descends(l, Cell::Leaf(idx), 1, v) == leaf.occ(v.x, v.y, v.z));
        lemma_bounds_hold(leaf, b, h, v);
    }
}

/// Bounds are the whole brick exactly when each of their fields says so.
proof fn lemma_full_by_fields(b: LeafBounds)
    ensures
        b.is_full() <==> b.min[0] == 0 && b.min[1] == 0 && b.min[2] == 0 && b.max[0] == 7
            && b.max[1] == 7 && b.max[2] == 7,
{
    if b.min[0] == 0 && b.min[1] == 0 && b.min[2] == 0 && b.max[0] == 7 && b.max[1] == 7
        && b.max[2] == 7 {
        assert(b.min@ =~= seq![0u32, 0, 0]);
        assert(b.max@ =~= seq![7u32, 7, 7]);
    }
    if b.is_full() {
        assert(b.min@[0] == 0 && b.min@[1] == 0 && b.min@[2] == 0);
        assert(b.max@[0] == 7 && b.max@[1] == 7 && b.max@[2] == 7);
    }
}

/// An occupied voxel of a brick lies in the brick's bounds.
proof fn lemma_bounds_hold(leaf: LeafBrick, b: LeafBounds, h: VoxelCoord, v: VoxelCoord)
    requires
        leaf.bounded_by(b),
        h.x % 8 == 0,
        h.y % 8 == 0,
        h.z % 8 == 0,
        in_cube(v, h, 8),
        leaf.occ(v.x, v.y, v.z),
    ensures
        h.x + b.min[0] <= v.x < h.x + b.max[0] + 1,
        h.y + b.min[1] <= v.y < h.y + b.max[1] + 1,
        h.z + b.min[2] <= v.z < h.z + b.max[2] + 1,
{
    let (x, y, z) = ((v.x - h.x) as u32, (v.y - h.y) as u32, (v.z - h.z) as u32);
    assert(v.x % 8 == x && v.y % 8 == y && v.z % 8 == z);
    assert(x % 8 == x && y % 8 == y && z % 8 == z);
    assert(leaf.occ(x, y, z));
    let m = local_index(x, y, z);
    lemma_local_range(x, y, z);
    lemma_ones_zero(leaf@, 512);
    if ones(leaf@, 512) > BOUNDS_SCAN_LIMIT {
        assert(b.is_full());
        assert(b.min@[0] == 0 && b.min@[1] == 0 && b.min@[2] == 0);
        assert(b.max@[0] == 7 && b.max@[1] == 7 && b.max@[2] == 7);
    }
}

/// A hit is a stored voxel of the cell the walk is at.
pub proof fn law_hit_is_stored<L: NodeLayout>(l: &L, frame: Frame, v: VoxelCoord)
    requires
        l.valid(),
        l.grid().wf(),
        frame.of(l),
        answers_cell(l, frame, Request::Hit(v)),
    ensures
        frame.covers(v),
        stores(l, v),
{
    lemma_here_fits(l, frame);
    assert(pow4(0) == 1);
}

/// Passing a cell by, or a leaf whose box the ray does not reach, skips no
/// stored voxel that the ray could meet there: a cell with a stored voxel is not
/// passed by, and a box to test holds every voxel stored in its cell.
pub proof fn law_skip_is_safe<L: NodeLayout>(
    l: &L,
    frame: Frame,
    lo: VoxelCoord,
    hi: VoxelCoord,
    v: VoxelCoord,
)
    requires
        l.valid(),
        l.grid().wf(),
        frame.of(l),
        frame.covers(v),
        stores(l, v),
    ensures
        !answers_cell(l, frame, Request::Advance),
        answers_cell(l, frame, Request::Reach { lo, hi }) ==> lo.x <= v.x < hi.x && lo.y <= v.y
            < hi.y && lo.z <= v.z < hi.z,
{
    lemma_here_fits(l, frame);
    if frame.level <= 1 {
        lemma_leaf_cell(l, frame);
    } else {
        lemma_node_cell(l, frame);
        if answers_cell(l, frame, Request::Reach { lo, hi }) {
            let idx = spec_child_here(l, frame)->Leaf_0;
            let b = choose|b: LeafBounds| #[trigger]
                l.spec_leaf(idx).bounded_by(b) && Request::Reach { lo, hi } == asks_leaf(
                    frame.here(),
                    b,
                );
            lemma_here_aligned(l, frame);
            lemma_reach_box(l, frame, idx, b);
        }
    }
}

/// The box to enter is the current cell, all of it and nothing else: `dim` cells
/// of edge `cell_size` fill the cell of edge `8 · 4^(level − 2)` that a frame at
/// `level` is at. The cells of the box are bricks' voxels, or the next level's
/// cells: each a quarter of the box, or an eighth of a brick.
pub proof fn law_enter_names_the_cell<L: NodeLayout>(
    l: &L,
    frame: Frame,
    origin: VoxelCoord,
    dim: u32,
    cell_size: u32,
)
    requires
        l.valid(),
        l.grid().wf(),
        frame.of(l),
        answers_cell(l, frame, Request::Enter { origin, dim, cell_size }),
    ensures
        frame.level >= 2,
        origin == frame.here(),
        dim * cell_size == 8 * pow4((frame.level - 2) as nat),
        dim == 8 <==> frame.level == 2,
        dim == 4 <==> frame.level > 2,
        forall|v: VoxelCoord| #[trigger]
            frame.covers(v) <==> in_cube(v, origin, dim * cell_size),
{
    lemma_here_fits(l, frame);
    let k = l.grid().levels() as nat;
    crate::resolution::lemma_pow4_range();
    lemma_pow4_increases(k, 14);
    assert(pow4(0) == 1);
    if frame.level > 2 {
        lemma_pow4_increases((frame.level - 3) as nat, k);
        assert(pow4((frame.level - 2) as nat) == 4 * pow4((frame.level - 3) as nat));
    }
}

/// The box to enter first is the whole grid.
pub proof fn law_start_names_the_grid<L: NodeLayout>(
    l: &L,
    t: Traversal,
    origin: VoxelCoord,
    dim: u32,
    cell_size: u32,
)
    requires
        l.grid().wf(),
        starts(l, t, Request::Enter { origin, dim, cell_size }),
    ensures
        dim * cell_size == l.grid().side(),
        dim == if l.grid().levels() == 0 {
            8int
        } else {
            4
        },
        forall|v: VoxelCoord| #[trigger]
            v.within(l.grid()) <==> in_cube(v, origin, dim * cell_size),
{
    let k = l.grid().levels() as nat;
    crate::resolution::lemma_pow4_range();
    lemma_pow4_increases(k, 14);
    assert(pow4(0) == 1);
    assert((l.grid().levels() + 1) as nat == k + 1);
    if k > 0 {
        lemma_pow4_increases((k - 1) as nat, k);
        assert(pow4(k) == 4 * pow4((k - 1) as nat));
        assert(cell_size == 8 * pow4((k - 1) as nat));
        assert(dim == 4);
    } else {
        assert(dim == 8 && cell_size == 1);
    }
}

/// A leaf whose bounds the ray reaches is entered whole: the box is the brick
/// the walk is at, voxel by voxel.
pub proof fn law_reached_leaf_is_entered<L: NodeLayout>(l: &L, t: Traversal, v: VoxelCoord)
    requires
        t.wf(l),
        t.stack@.len() > 0,
        t.top().level == 2,
    ensures
        decides(t, false) == Request::Advance,
        decides(t, true) matches Request::Enter { origin, dim, cell_size } && dim == 8
            && cell_size == 1 && (t.top().covers(v) <==> in_cube(v, origin, 8)),
{
    assert(t.stack@[t.stack@.len() - 1].of(l));
    assert(pow4(0) == 1);
}

/// `request` is one that the descent `t` has just made, of the root, of the cell
/// its innermost walk is at, or of the leaf whose bounds were reached.
pub open spec fn asks<L: NodeLayout>(l: &L, t: Traversal, request: Request) -> bool {
    if t.stack@.len() == 0 {
        starts(l, t, request)
    } else {
        ||| answers_cell(l, t.top(), request)
        ||| t.top().level == 2 && t.can_enter(l) && (exists|reaches: bool|
            request == #[trigger] decides(t, reaches))
    }
}

/// A box entered is walked in the cells the request named: entered where voxel
/// `v` is, by the request's own origin and cell size, the opened frame stands
/// at the cell that holds `v`.
pub proof fn law_entered_box_is_walked<L: NodeLayout>(
    l: &L,
    a: Traversal,
    b: Traversal,
    origin: VoxelCoord,
    dim: u32,
    cell_size: u32,
    cell: [u32; 3],
    dir: [i8; 3],
    r: Request,
    v: VoxelCoord,
)
    requires
        a.wf(l),
        asks(l, a, Request::Enter { origin, dim, cell_size }),
        opens(l, a, b, cell, dir, r),
        in_cube(v, origin, dim * cell_size),
        cell[0] == (v.x - origin.x) / (cell_size as int),
        cell[1] == (v.y - origin.y) / (cell_size as int),
        cell[2] == (v.z - origin.z) / (cell_size as int),
    ensures
        b.top().origin == origin,
        b.top().walk.dim == dim,
        b.top().walk.dir == dir,
        b.top().walk.cell@ == cell@,
        step_size(b.top().level as nat) == cell_size,
        b.top().covers(v),
{
    lemma_box_of_request(l, a, origin, dim, cell_size);
    let s = cell_size as int;
    let d = dim as int;
    lemma_cell_of(v.x - origin.x, d, s);
    lemma_cell_of(v.y - origin.y, d, s);
    lemma_cell_of(v.z - origin.z, d, s);
    assert(b.top().walk.cell[0] == cell[0]);
    assert(b.top().walk.cell[1] == cell[1]);
    assert(b.top().walk.cell[2] == cell[2]);
    assert(b.top().walk.cell@ =~= cell@);
}

/// The box that a request names is the pending child's.
pub proof fn lemma_box_of_request<L: NodeLayout>(
    l: &L,
    a: Traversal,
    origin: VoxelCoord,
    dim: u32,
    cell_size: u32,
)
    requires
        a.wf(l),
        asks(l, a, Request::Enter { origin, dim, cell_size }),
    ensures
        ({
            let level: int = if a.stack@.len() == 0 {
                l.grid().levels() + 1
            } else {
                a.top().level - 1
            };
            &&& level >= 1
            &&& dim == if level == 1 {
                8int
            } else {
                4
            }
            &&& cell_size == step_size(level as nat)
            &&& cell_size >= 1
            &&& dim * cell_size == extent(level as nat)
        }),
        a.stack@.len() > 0 ==> origin == a.top().here() && forall|v: VoxelCoord| #[trigger]
            a.top().covers(v) <==> in_cube(v, origin, dim * cell_size),
        a.stack@.len() == 0 ==> origin == (VoxelCoord { x: 0, y: 0, z: 0 }) && forall|
            v: VoxelCoord,
        | #[trigger] v.within(l.grid()) <==> in_cube(v, origin, dim * cell_size),
{
    assert(pow4(0) == 1);
    if a.stack@.len() == 0 {
        law_start_names_the_grid(l, a, origin, dim, cell_size);
        let k = l.grid().levels() as nat;
        crate::resolution::lemma_pow4_range();
        lemma_pow4_increases(k, 14);
        if k > 0 {
            lemma_pow4_increases((k - 1) as nat, k);
        }
    } else {
        let f = a.stack@[a.stack@.len() - 1];
        assert(f.of(l));
        if answers_cell(l, f, Request::Enter { origin, dim, cell_size }) {
            law_enter_names_the_cell(l, f, origin, dim, cell_size);
            let k = l.grid().levels() as nat;
            crate::resolution::lemma_pow4_range();
            lemma_pow4_increases(k, 14);
            if f.level > 2 {
                lemma_pow4_increases((f.level - 3) as nat, k);
            }
        } else {
            let reaches = choose|reaches: bool|
                Request::Enter { origin, dim, cell_size } == #[trigger] decides(a, reaches);
            assert(reaches);
        }
    }
}

proof fn lemma_cell_of(x: int, d: int, s: int)
    requires
        0 <= x < d * s,
        1 <= s,
    ensures
        0 <= x / s < d,
        (x / s) * s <= x < (x / s) * s + s,
{
    vstd::arithmetic::div_mod::lemma_fundamental_div_mod(x, s);
    let q = x / s;
    assert(s * q == q * s) by (nonlinear_arith);
    assert(0 <= q < d) by (nonlinear_arith)
        requires
            0 <= x < d * s,
            1 <= s,
            q * s <= x < q * s + s,
    ;
}

/// Whatever the machine asks for, the answer can be given: a box to enter or to
/// reach has a child behind it, and a walk to advance is open.
pub proof fn law_requests_can_be_answered<L: NodeLayout>(l: &L, t: Traversal, r: Request)
    requires
        t.wf(l),
        asks(l, t, r),
        t.stack@.len() > 0 && t.top().level >= 2 ==> t.pending == spec_child_here(l, t.top()),
    ensures
        r is Enter ==> t.can_enter(l),
        r is Reach ==> t.stack@.len() > 0 && t.top().level == 2 && t.can_enter(l),
        r is Advance ==> t.stack@.len() > 0,
        r is Miss ==> t.stack@.len() == 0 && forall|v: VoxelCoord| !#[trigger] stores(l, v),
{
}

/// A step goes to the neighbouring cell: the walk moves along the axis exactly
/// where the cell one over, in the axis's direction, lies in its box. It then
/// stands there, with every other coordinate and every enclosing walk as before.
/// Otherwise its frame closes and the enclosing walks are left where they were.
pub proof fn law_step_goes_to_neighbour<L: NodeLayout>(
    l: &L,
    a: Traversal,
    b: Traversal,
    axis: usize,
    r: Request,
)
    requires
        a.stack@.len() > 0,
        a.top().walk.wf(),
        axis < 3,
        -1 <= a.top().walk.dir[axis as int] <= 1,
        advances(l, a, b, Some(axis), r),
    ensures
        ({
            let from = a.top().walk;
            let to = b.top().walk;
            let d = from.dir[axis as int];
            let next = from.cell[axis as int] + d;
            if d != 0 && 0 <= next < from.dim {
                &&& b.stack@.len() == a.stack@.len()
                &&& to.cell[axis as int] == next
                &&& forall|o: int|
                    0 <= o < 3 && o != axis ==> #[trigger] to.cell[o] == from.cell[o]
                &&& to.dim == from.dim
                &&& to.dir == from.dir
                &&& b.top().node == a.top().node
                &&& b.top().level == a.top().level
                &&& b.top().origin == a.top().origin
            } else {
                b.stack@.len() == a.stack@.len() - 1
            }
        }),
        forall|i: int| 0 <= i < a.stack@.len() - 1 ==> #[trigger] b.stack@[i] == a.stack@[i],
{
    assert forall|i: int| 0 <= i < a.stack@.len() - 1 implies #[trigger] b.stack@[i] == a.stack@[i]
        by {
        assert(a.stack@.drop_last()[i] == a.stack@[i]);
        if b.stack@.len() == a.stack@.len() {
            assert(b.stack@.drop_last()[i] == b.stack@[i]);
        }
    }
    assert(b.top().walk.cell@.len() == 3);
}

/// With no axis left to cross, the innermost frame closes, whatever its level;
/// the last one to close ends the march.
pub proof fn law_no_axis_closes<L: NodeLayout>(l: &L, a: Traversal, b: Traversal, r: Request)
    requires
        a.stack@.len() > 0,
        advances(l, a, b, None, r),
    ensures
        b.stack@ == a.stack@.drop_last(),
        r is Miss <==> b.stack@.len() == 0,
        r is Advance <==> b.stack@.len() > 0,
{
}

/// The counters, step by step. A step that moves the innermost walk examines one
/// cell, at every level; one that closes a frame examines none. Opening a frame
/// descends once and examines one cell. Nothing else counts.
pub proof fn law_steps_count_cells<L: NodeLayout>(
    l: &L,
    a: Traversal,
    b: Traversal,
    axis: Option<usize>,
    cell: [u32; 3],
    dir: [i8; 3],
    r: Request,
)
    requires
        a.has_room(),
        a.stack@.len() > 0,
    ensures
        advances(l, a, b, axis, r) ==> b.stats.descents == a.stats.descents,
        advances(l, a, b, axis, r) && b.stack@.len() == a.stack@.len() ==> b.stats.cell_steps
            == a.stats.cell_steps + 1,
        advances(l, a, b, axis, r) && b.stack@.len() != a.stack@.len() ==> b.stats.cell_steps
            == a.stats.cell_steps,
        opens(l, a, b, cell, dir, r) ==> b.stats.descents == a.stats.descents + 1
            && b.stats.cell_steps == a.stats.cell_steps + 1,
{
}

/// The nearest axis is the one whose boundary comes first, and the lowest of
/// those that come first together: for any three distances, from what their
/// comparisons say.
pub proof fn law_nearest_axis_is_least(t: Seq<int>, r: usize)
    requires
        t.len() == 3,
        call_ensures(nearest_axis, (t[1] < t[0], t[2] < t[0], t[2] < t[1]), r),
    ensures
        r < 3,
        forall|a: int| 0 <= a < 3 ==> t[r as int] <= #[trigger] t[a],
        forall|a: int| 0 <= a < r ==> t[r as int] < #[trigger] t[a],
{
    assert(t[0] == t[0] && t[1] == t[1] && t[2] == t[2]);
}

/// A walk is entered at the given cell where the grid has it, and else at the
/// nearest cell the grid has: on each axis the coordinate is the given one or
/// the last, whichever is less.
pub proof fn law_walk_enters_nearest(cell: [u32; 3], dir: [i8; 3], dim: u32, w: Walk, a: int)
    requires
        dim > 0,
        0 <= a < 3,
        call_ensures(Walk::enter, (cell, dir, dim), w),
    ensures
        w.wf() && w.dim == dim && w.dir == dir,
        w.cell[a] <= cell[a] && w.cell[a] <= dim - 1,
        w.cell[a] == cell[a] || w.cell[a] == dim - 1,
{
    assert(w.cell[a] == w.cell[a]);
}

/// A walk steps to the next cell in the axis's direction exactly where the axis
/// has one and the grid has that cell; else it stays.
pub proof fn law_walk_steps_one_cell(w: &mut Walk, axis: usize, moved: bool)
    requires
        old(w).wf(),
        axis < 3,
        call_ensures(Walk::step, (w, axis), moved),
    ensures
        ({
            let next = old(w).cell[axis as int] + old(w).dir[axis as int];
            &&& moved <==> (old(w).dir[axis as int] == 1 || old(w).dir[axis as int] == -1) && 0
                <= next < old(w).dim
            &&& moved ==> final(w).cell[axis as int] == next
            &&& moved ==> forall|o: int|
                0 <= o < 3 && o != axis ==> #[trigger] final(w).cell[o] == old(w).cell[o]
            &&& !moved ==> *final(w) == *old(w)
            &&& final(w).dim == old(w).dim && final(w).dir == old(w).dir
        }),
{
    assert(old(w).cell@.len() == 3);
}

/// The cells of a frame: a brick's are voxels, and a node's are as long as the
/// boxes one level down are, four of them along the frame's own edge.
pub proof fn law_frame_cells_fill_it(level: u32, size: u32, above: u32)
    requires
        1 <= level <= 14,
        call_ensures(frame_cell_size, (level,), size),
        call_ensures(frame_cell_size, ((level + 1) as u32,), above),
    ensures
        level == 1 ==> size == 1 && above == 8,
        level > 1 ==> above == 4 * size,
        (if level == 1 {
            8int
        } else {
            4
        }) * size == 8 * pow4((level - 1) as nat),
        above == 8 * pow4((level - 1) as nat),
{
    assert(pow4(0) == 1);
    if level > 1 {
        assert(pow4((level - 1) as nat) == 4 * pow4((level - 2) as nat));
    }
}

/// A descent starts with no frame open and nothing counted.
pub proof fn law_start_is_fresh<L: NodeLayout>(l: &L, r: (Traversal, Request), depth: usize)
    requires
        l.valid(),
        call_ensures(Traversal::start::<L>, (l,), r),
        call_ensures(Traversal::depth, (&r.0,), depth),
    ensures
        starts(l, r.0, r.1),
        r.0.wf(l),
        depth == 0,
        r.0.stats.descents == 0 && r.0.stats.cell_steps == 0,
        r.1 is Enter || r.1 is Miss,
        r.1 is Miss <==> l.spec_root() == Cell::Empty,
{
}

/// Entering a box opens one frame at the cell given, counts one descent and one
/// cell, and leaves the frames around it alone.
pub proof fn law_entering_opens_one_frame<L: NodeLayout>(
    t: &mut Traversal,
    l: &L,
    cell: [u32; 3],
    dir: [i8; 3],
    r: Request,
)
    requires
        old(t).wf(l),
        old(t).has_room(),
        old(t).can_enter(l),
        call_ensures(Traversal::entered::<L>, (t, l, cell, dir), r),
    ensures
        final(t).wf(l),
        opens(l, *old(t), *final(t), cell, dir, r),
        final(t).stack@.len() == old(t).stack@.len() + 1,
        forall|i: int|
            0 <= i < old(t).stack@.len() ==> #[trigger] final(t).stack@[i] == old(t).stack@[i],
        final(t).stats.descents == old(t).stats.descents + 1,
        final(t).stats.cell_steps == old(t).stats.cell_steps + 1,
        final(t).top().cell() == old(t).pending,
        r is Hit ==> final(t).top().level == 1,
        r is Enter || r is Reach ==> final(t).can_enter(l),
{
    assert forall|i: int| 0 <= i < old(t).stack@.len() implies #[trigger] final(t).stack@[i]
        == old(t).stack@[i] by {
        assert(final(t).stack@.drop_last()[i] == final(t).stack@[i]);
    }
}

/// A step moves the innermost walk and counts one cell, at whatever level, or
/// closes its frame and counts none.
pub proof fn law_stepping_counts_moves<L: NodeLayout>(
    t: &mut Traversal,
    l: &L,
    axis: Option<usize>,
    r: Request,
)
    requires
        old(t).wf(l),
        old(t).has_room(),
        old(t).stack@.len() > 0,
        axis matches Some(a) ==> a < 3,
        call_ensures(Traversal::stepped::<L>, (t, l, axis), r),
    ensures
        final(t).wf(l),
        advances(l, *old(t), *final(t), axis, r),
        final(t).stats.descents == old(t).stats.descents,
        final(t).stack@.len() == old(t).stack@.len() ==> final(t).stats.cell_steps
            == old(t).stats.cell_steps + 1,
        final(t).stack@.len() != old(t).stack@.len() ==> final(t).stack@.len() == old(
            t,
        ).stack@.len() - 1 && final(t).stats.cell_steps == old(t).stats.cell_steps,
        final(t).stack@.len() == old(t).stack@.len() <==> axis is Some && old(
            t,
        ).top().walk.can_step(axis->0 as int),
        r is Miss <==> final(t).stack@.len() == 0,
{
    assert(old(t).stack@[old(t).stack@.len() - 1].of(l));
    assert(final(t).stack@.len() > 0 ==> final(t).top() == final(t).stack@[final(t).stack@.len()
        - 1]);
}

/// The answer on a leaf's bounds changes nothing but what is asked next: its
/// voxels where they are reached, the next cell where they are not.
pub proof fn law_reaching_only_decides<L: NodeLayout>(
    t: &mut Traversal,
    l: &L,
    reaches: bool,
    r: Request,
)
    requires
        old(t).wf(l),
        old(t).stack@.len() > 0,
        old(t).can_enter(l),
        old(t).top().level == 2,
        call_ensures(Traversal::reached::<L>, (t, l, reaches), r),
    ensures
        *final(t) == *old(t),
        r == decides(*old(t), reaches),
        r is Enter <==> reaches,
        r is Advance <==> !reaches,
{
}

/// A box to reach is no larger than it need be: it is smaller than the brick, and
/// where the brick has a stored voxel each of its six faces touches one. A brick
/// whose bounds are all of it is entered without asking.
pub proof fn law_reach_box_is_tight<L: NodeLayout>(
    l: &L,
    frame: Frame,
    lo: VoxelCoord,
    hi: VoxelCoord,
)
    requires
        l.valid(),
        l.grid().wf(),
        frame.of(l),
        answers_cell(l, frame, Request::Reach { lo, hi }),
    ensures
        frame.level == 2,
        frame.covers(lo),
        lo.x < hi.x <= frame.here().x + 8 && lo.y < hi.y <= frame.here().y + 8 && lo.z < hi.z
            <= frame.here().z + 8,
        hi.x - lo.x < 8 || hi.y - lo.y < 8 || hi.z - lo.z < 8,
        exists|v: VoxelCoord| frame.covers(v) && #[trigger] stores(l, v) && v.x == lo.x,
        exists|v: VoxelCoord| frame.covers(v) && #[trigger] stores(l, v) && v.y == lo.y,
        exists|v: VoxelCoord| frame.covers(v) && #[trigger] stores(l, v) && v.z == lo.z,
        exists|v: VoxelCoord| frame.covers(v) && #[trigger] stores(l, v) && v.x + 1 == hi.x,
        exists|v: VoxelCoord| frame.covers(v) && #[trigger] stores(l, v) && v.y + 1 == hi.y,
        exists|v: VoxelCoord| frame.covers(v) && #[trigger] stores(l, v) && v.z + 1 == hi.z,
{
    let idx = spec_child_here(l, frame)->Leaf_0;
    let leaf = l.spec_leaf(idx);
    let b = choose|b: LeafBounds| #[trigger]
        leaf.bounded_by(b) && Request::Reach { lo, hi } == asks_leaf(frame.here(), b);
    lemma_here_fits(l, frame);
    lemma_node_cell(l, frame);
    lemma_here_aligned(l, frame);
    lemma_reach_box(l, frame, idx, b);
    lemma_full_by_fields(b);
    assert(leaf.tight(b));
    let h = frame.here();
    assert(lo.x == h.x + b.min[0] && lo.y == h.y + b.min[1] && lo.z == h.z + b.min[2]);
    assert(hi.x == h.x + b.max[0] + 1 && hi.y == h.y + b.max[1] + 1 && hi.z == h.z + b.max[2] + 1);
    lemma_face_touched(l, frame, idx, b, 0);
    lemma_face_touched(l, frame, idx, b, 1);
    lemma_face_touched(l, frame, idx, b, 2);
}

/// The voxel of a brick at a local place, and what is stored there.
proof fn lemma_local_voxel<L: NodeLayout>(l: &L, f: Frame, idx: u32, x: u32, y: u32, z: u32) -> (v:
    VoxelCoord)
    requires
        step_size(f.level as nat) == 8,
        f.here().x % 8 == 0,
        f.here().y % 8 == 0,
        f.here().z % 8 == 0,
        f.here().x + 8 <= 0x8000_0000,
        f.here().y + 8 <= 0x8000_0000,
        f.here().z + 8 <= 0x8000_0000,
        x < 8,
        y < 8,
        z < 8,
        l.spec_leaf(idx).occ(x, y, z),
        forall|v: VoxelCoord|
            f.covers(v) ==> #[trigger] stores(l, v) == descends(l, Cell::Leaf(idx), 1, v),
    ensures
        v.x == f.here().x + x && v.y == f.here().y + y && v.z == f.here().z + z,
        f.covers(v),
        stores(l, v),
{
    let h = f.here();
    let v = VoxelCoord { x: (h.x + x) as u32, y: (h.y + y) as u32, z: (h.z + z) as u32 };
    assert(v.x % 8 == x % 8 && v.y % 8 == y % 8 && v.z % 8 == z % 8);
    assert(l.spec_leaf(idx).occ(v.x, v.y, v.z));
    assert(descends(l, Cell::Leaf(idx), 1, v));
    assert(f.covers(v));
    assert(stores(l, v));
    v
}

/// A tight box's faces across one axis touch stored voxels.
proof fn lemma_face_touched<L: NodeLayout>(l: &L, f: Frame, idx: u32, b: LeafBounds, a: int)
    requires
        0 <= a < 3,
        step_size(f.level as nat) == 8,
        f.here().x % 8 == 0,
        f.here().y % 8 == 0,
        f.here().z % 8 == 0,
        f.here().x + 8 <= 0x8000_0000,
        f.here().y + 8 <= 0x8000_0000,
        f.here().z + 8 <= 0x8000_0000,
        l.spec_leaf(idx).tight(b),
        forall|v: VoxelCoord|
            f.covers(v) ==> #[trigger] stores(l, v) == descends(l, Cell::Leaf(idx), 1, v),
    ensures
        exists|v: VoxelCoord|
            f.covers(v) && #[trigger] stores(l, v) && along_axis(v, a) == along_axis(f.here(), a)
                + b.min[a],
        exists|v: VoxelCoord|
            f.covers(v) && #[trigger] stores(l, v) && along_axis(v, a) == along_axis(f.here(), a)
                + b.max[a],
        a == 0 ==> (exists|v: VoxelCoord|
            f.covers(v) && #[trigger] stores(l, v) && v.x == f.here().x + b.min[0]) && (exists|
            v: VoxelCoord,
        | f.covers(v) && #[trigger] stores(l, v) && v.x == f.here().x + b.max[0]),
        a == 1 ==> (exists|v: VoxelCoord|
            f.covers(v) && #[trigger] stores(l, v) && v.y == f.here().y + b.min[1]) && (exists|
            v: VoxelCoord,
        | f.covers(v) && #[trigger] stores(l, v) && v.y == f.here().y + b.max[1]),
        a == 2 ==> (exists|v: VoxelCoord|
            f.covers(v) && #[trigger] stores(l, v) && v.z == f.here().z + b.min[2]) && (exists|
            v: VoxelCoord,
        | f.covers(v) && #[trigger] stores(l, v) && v.z == f.here().z + b.max[2]),
{
    let leaf = l.spec_leaf(idx);
    let (x, y, z) = choose|x: u32, y: u32, z: u32|
        x < 8 && y < 8 && z < 8 && #[trigger] leaf.occ(x, y, z) && (if a == 0 {
            x
        } else if a == 1 {
            y
        } else {
            z
        }) == b.min[a];
    let v = lemma_local_voxel(l, f, idx, x, y, z);
    let (p, q, r) = choose|p: u32, q: u32, r: u32|
        p < 8 && q < 8 && r < 8 && #[trigger] leaf.occ(p, q, r) && (if a == 0 {
            p
        } else if a == 1 {
            q
        } else {
            r
        }) == b.max[a];
    let w = lemma_local_voxel(l, f, idx, p, q, r);
}

/// A voxel's coordinate along an axis.
spec fn along_axis(v: VoxelCoord, a: int) -> u32 {
    if a == 0 {
        v.x
    } else if a == 1 {
        v.y
    } else {
        v.z
    }
}

} // verus!
