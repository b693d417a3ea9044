//! The sparse `4³` node hierarchy over Morton-ordered leaves.
//!
//! Sparse leaves are addressed by `popcount`-rank. The structure is built by
//! enumerating the occupied bricks, sorting them by Morton code, and grouping
//! them 64 to a node, level by level. Only non-empty cells are stored.

use crate::bits::{lemma_ones_monotone, lemma_parts, ones};
use crate::coord::VoxelCoord;
use crate::layout::{brick_code, descends, lands, leaf_of, stores, toward, Cell, NodeLayout};
use crate::leaf::{law_view_determines_brick, lemma_view_len, LeafBrick};
use crate::levels::{ancestor, are_levels, ascending, build_levels, is_level, lemma_ancestor_bound, lemma_ancestor_stored, lemma_child_lookup, lemma_descent_bit, lemma_level_unique, lemma_stored_ancestor, level_codes, pow64, search, MAX_CELLS};
use crate::morton::{self, law_morton_injective, lemma_local_range, local_index, morton, MAX_MORTON_COORD};
use crate::node::{self, GpuNode};
use crate::palette::{leaf_spills, spills, LEAF_VOXELS};
use crate::resolution::{lemma_pow4_increases, pow4, Resolution};
use vstd::prelude::*;

verus! {

broadcast use lemma_view_len;

/// A sparse hierarchy: Morton-ordered leaf bricks and, per internal level, a
/// packed array of `4³` nodes addressed by `popcount`-rank.
#[derive(Debug, Clone)]
pub struct SparseTree {
    /// The grid the tree spans.
    pub resolution: Resolution,
    /// Internal nodes by traversal level. `nodes[L]` holds level-`L` nodes for
    /// `L ∈ 2..=k+1`; indices `0` and `1` are unused (the leaf array is "level
    /// 1"). The root is `nodes[k+1][0]` (or `leaves[0]` when `k = 0`).
    pub nodes: Vec<Vec<GpuNode>>,
    /// Leaf bricks, sorted by brick Morton code.
    pub leaves: Vec<LeafBrick>,
    /// Brick Morton codes, parallel to `leaves` (ascending). A topology change
    /// searches and splices this list, then rebuilds the node levels from it.
    pub codes: Vec<u64>,
    /// Monotonic counter bumped on every topology-class event: a brick appearing
    /// or disappearing, and a material edit of a leaf that spills or stops
    /// spilling.
    pub topo_gen: u64,
    /// Per-leaf material grid, index-parallel with `leaves`/`codes`: one global
    /// material id per voxel in intra-brick Morton order (`0` = the reserved
    /// default / MISSING sentinel). Spliced in lockstep with `leaves` on every
    /// topology edit.
    pub materials: Vec<Box<[u16; LEAF_VOXELS]>>,
}

/// What an edit ([`SparseTree::set_voxel`]) did to the structure, and therefore
/// how little an adapter must re-upload to stay in sync.
#[derive(Debug, Clone, Copy, PartialEq, Eq, Structural)]
pub enum Edit {
    /// The voxel already had the requested state; nothing changed.
    Unchanged,
    /// Exactly one leaf brick changed *in place* (the given leaf index): the
    /// Morton order, node masks, and all indices are unchanged.
    Leaf(u32),
    /// A brick appeared or disappeared: the leaf array and node levels were
    /// rebuilt. Leaf indices have shifted.
    Topology,
    /// A leaf's per-voxel material changed in place (no occupancy change): only
    /// that leaf's material slot need be uploaded again. `spilled` means the leaf
    /// now has more distinct occupied materials than fit the inline palette, so
    /// it rides a full upload instead (a topology-class event: the generation is
    /// bumped).
    Material {
        /// The affected leaf index.
        leaf: u32,
        /// The leaf exceeds the palette cap.
        spilled: bool,
    },
}

/// An in-bounds voxel's brick is within the Morton codec's 21 bits per axis.
/// Always so up to ten internal levels.
pub open spec fn codable(c: VoxelCoord, resolution: Resolution) -> bool {
    resolution.levels() <= 10 || (c.within(resolution) ==> c.x / 8 <= MAX_MORTON_COORD && c.y / 8
        <= MAX_MORTON_COORD && c.z / 8 <= MAX_MORTON_COORD)
}

/// What `codable` says of an in-bounds voxel.
proof fn lemma_codable(c: VoxelCoord, resolution: Resolution)
    requires
        resolution.wf(),
        c.within(resolution),
        codable(c, resolution),
    ensures
        c.x / 8 <= MAX_MORTON_COORD,
        c.y / 8 <= MAX_MORTON_COORD,
        c.z / 8 <= MAX_MORTON_COORD,
{
    if resolution.levels() <= 10 {
        lemma_pow4_increases(resolution.levels() as nat, 10);
        assert(pow4(10) == 0x10_0000) by {
            reveal_with_fuel(pow4, 11);
        }
    }
}

/// `bricks` bricks fit `u32` indices. Always so up to five internal levels, where
/// the whole grid has no more than `2³⁰`.
pub open spec fn indexable(resolution: Resolution, bricks: nat) -> bool {
    resolution.levels() <= 5 || bricks <= MAX_CELLS
}

/// The bricks of a grid of up to five internal levels are few.
pub proof fn lemma_few_codes(codes: Seq<u64>, k: nat)
    requires
        ascending(codes),
        forall|i: int| 0 <= i < codes.len() ==> (#[trigger] codes[i]) < pow64(k),
        k <= 5,
    ensures
        codes.len() <= 0x4000_0000,
{
    reveal_with_fuel(pow64, 6);
    assert(pow64(k) <= 0x4000_0000);
    if codes.len() > 0 {
        lemma_code_at_least(codes, codes.len() - 1);
    }
}

proof fn lemma_code_at_least(codes: Seq<u64>, i: int)
    requires
        ascending(codes),
        0 <= i < codes.len(),
    ensures
        i <= codes[i],
    decreases i,
{
    if i > 0 {
        lemma_code_at_least(codes, i - 1);
        assert(codes[i - 1] < codes[i]);
    }
}

impl SparseTree {
    /// The tree's invariant: leaves, codes and materials run parallel in
    /// ascending code order, and the node levels are those of the codes.
    pub open spec fn wf(self) -> bool {
        &&& self.resolution.wf()
        &&& self.leaves@.len() == self.codes@.len()
        &&& self.materials@.len() == self.codes@.len()
        &&& codes_ok(self.resolution, self.codes@)
        &&& are_levels(self.nodes@, self.codes@, self.resolution.levels() as nat)
    }

    /// No stored brick is empty.
    pub open spec fn compact(self) -> bool {
        forall|i: int| 0 <= i < self.leaves@.len() ==> !(#[trigger] self.leaves@[i]).vacant()
    }

    /// A brick with this code is stored.
    pub open spec fn has_brick(self, code: int) -> bool {
        exists|i: int| 0 <= i < self.codes@.len() && #[trigger] self.codes@[i] == code
    }

    /// The index of the stored brick with this code.
    pub open spec fn slot(self, code: int) -> int {
        choose|i: int| 0 <= i < self.codes@.len() && #[trigger] self.codes@[i] == code
    }

    /// Whether voxel `c` is occupied.
    pub open spec fn occupied(self, c: VoxelCoord) -> bool {
        &&& c.within(self.resolution)
        &&& self.has_brick(brick_code(c) as int)
        &&& self.leaves@[self.slot(brick_code(c) as int)].occ(c.x, c.y, c.z)
    }

    /// The material of voxel `c`: 0 unless it is occupied.
    pub open spec fn material(self, c: VoxelCoord) -> u16 {
        if self.occupied(c) {
            self.materials@[self.slot(brick_code(c) as int)]@[local_index(c.x, c.y, c.z)]
        } else {
            0
        }
    }

    /// The leaf of `c`'s brick, if it is stored.
    pub open spec fn leaf_cell(self, c: VoxelCoord) -> Cell {
        if c.within(self.resolution) && self.has_brick(brick_code(c) as int) {
            Cell::Leaf(self.slot(brick_code(c) as int) as u32)
        } else {
            Cell::Empty
        }
    }

    /// Some voxel of `c`'s brick other than `c` is occupied.
    pub open spec fn shared(self, c: VoxelCoord) -> bool {
        exists|d: VoxelCoord|
            d != c && brick_code(d) == brick_code(c) && #[trigger] self.occupied(d)
    }
}

/// Brick codes of a tree: ascending, within the grid and the Morton codec, and
/// few enough for `u32` indices.
pub open spec fn codes_ok(resolution: Resolution, codes: Seq<u64>) -> bool {
    &&& codes.len() <= MAX_CELLS
    &&& ascending(codes)
    &&& forall|i: int|
        0 <= i < codes.len() ==> (#[trigger] codes[i]) < 0x8000_0000_0000_0000 && codes[i] < pow64(
            resolution.levels() as nat,
        )
}

/// A stored code is found at its own index.
pub proof fn lemma_slot(t: SparseTree, i: int)
    requires
        ascending(t.codes@),
        0 <= i < t.codes@.len(),
    ensures
        t.has_brick(t.codes@[i] as int),
        t.slot(t.codes@[i] as int) == i,
{
    let code = t.codes@[i] as int;
    assert(t.codes@[i] == code);
    let j = t.slot(code);
    assert(0 <= j < t.codes@.len() && t.codes@[j] == code);
    if j < i {
        assert(t.codes@[j] < t.codes@[i]);
    } else if i < j {
        assert(t.codes@[i] < t.codes@[j]);
    }
}

/// Voxels of one brick with one local index are one voxel.
pub proof fn lemma_same_voxel(c: VoxelCoord, d: VoxelCoord)
    requires
        brick_code(c) == brick_code(d),
        local_index(c.x, c.y, c.z) == local_index(d.x, d.y, d.z),
    ensures
        c == d,
{
    law_morton_injective(
        (c.x / 8) as nat,
        (c.y / 8) as nat,
        (c.z / 8) as nat,
        (d.x / 8) as nat,
        (d.y / 8) as nat,
        (d.z / 8) as nat,
    );
    law_morton_injective(
        (c.x % 8) as nat,
        (c.y % 8) as nat,
        (c.z % 8) as nat,
        (d.x % 8) as nat,
        (d.y % 8) as nat,
        (d.z % 8) as nat,
    );
    assert(c.x == 8 * (c.x / 8) + c.x % 8 && d.x == 8 * (d.x / 8) + d.x % 8);
    assert(c.y == 8 * (c.y / 8) + c.y % 8 && d.y == 8 * (d.y / 8) + d.y % 8);
    assert(c.z == 8 * (c.z / 8) + c.z % 8 && d.z == 8 * (d.z / 8) + d.z % 8);
}

/// Codes of bricks inside a `4^k`-brick grid are below `64^k`.
pub proof fn lemma_brick_bound(x: nat, y: nat, z: nat, k: nat)
    requires
        x < pow4(k),
        y < pow4(k),
        z < pow4(k),
    ensures
        morton(x, y, z) < pow64(k),
    decreases k,
{
    if k == 0 {
        crate::morton::lemma_morton_zero();
    } else {
        let p = pow4((k - 1) as nat);
        assert(pow4(k) == 4 * p);
        lemma_brick_bound(x / 4, y / 4, z / 4, (k - 1) as nat);
        crate::morton::lemma_morton_cell4(x, y, z);
    }
}

/// Codes below `64^k` are of bricks inside a `4^k`-brick grid.
pub proof fn lemma_brick_inside(x: nat, y: nat, z: nat, k: nat)
    requires
        morton(x, y, z) < pow64(k),
    ensures
        x < pow4(k),
        y < pow4(k),
        z < pow4(k),
    decreases k,
{
    if k == 0 {
        crate::morton::lemma_morton_zero();
        law_morton_injective(x, y, z, 0, 0, 0);
    } else {
        crate::morton::lemma_morton_cell4(x, y, z);
        assert(pow64(k) == 64 * pow64((k - 1) as nat));
        lemma_brick_inside(x / 4, y / 4, z / 4, (k - 1) as nat);
        assert(pow4(k) == 4 * pow4((k - 1) as nat));
    }
}

/// The code of an in-bounds voxel's brick, as the codec computes it.
pub fn brick_of(c: VoxelCoord, resolution: Resolution) -> (r: u64)
    requires
        c.within(resolution),
        codable(c, resolution),
    ensures
        r == brick_code(c),
        r < 0x8000_0000_0000_0000,
        r < pow64(resolution.levels() as nat),
{
    let n: u32 = resolution.voxels_per_axis();
    let (x, y, z) = (c.x, c.y, c.z);
    proof {
        lemma_codable(c, resolution);
        assert(x >> 3 == x / 8 && y >> 3 == y / 8 && z >> 3 == z / 8) by {
            lemma_parts(x);
            lemma_parts(y);
            lemma_parts(z);
        }
        lemma_brick_bound(
            (c.x / 8) as nat,
            (c.y / 8) as nat,
            (c.z / 8) as nat,
            resolution.levels() as nat,
        );
    }
    morton::encode(x >> 3, y >> 3, z >> 3)
}

impl SparseTree {
    /// The index of the brick that holds the in-bounds voxel `c`, or where it
    /// would be inserted.
    fn locate(&self, c: VoxelCoord) -> (r: Result<usize, usize>)
        requires
            self.wf(),
            c.within(self.resolution),
            codable(c, self.resolution),
        ensures
            r matches Ok(i) ==> i < self.codes@.len() && self.codes@[i as int] == brick_code(c)
                && self.has_brick(brick_code(c) as int) && self.slot(brick_code(c) as int) == i,
            r matches Err(at) ==> at <= self.codes@.len() && !self.has_brick(brick_code(c) as int)
                && (forall|i: int| 0 <= i < at ==> #[trigger] self.codes@[i] < brick_code(c)) && (
            forall|i: int|
                at <= i < self.codes@.len() ==> brick_code(c) < #[trigger] self.codes@[i]),
    {
        let code: u64 = brick_of(c, self.resolution);
        let r: Result<usize, usize> = search(&self.codes, code);
        proof {
            if let Ok(i) = r {
                lemma_slot(*self, i as int);
            }
        }
        r
    }

    /// The topology generation, bumped each time a brick appears or disappears
    /// and by each material edit of a leaf that spills or stops spilling.
    #[must_use]
    pub fn topology_generation(&self) -> (r: u64)
        ensures
            r == self.topo_gen,
    {
        self.topo_gen
    }

    /// Sets or clears voxel `c`, updating the structure incrementally, and
    /// reports what changed (see [`Edit`]). An out-of-bounds or no-op edit
    /// returns [`Edit::Unchanged`].
    ///
    /// In-place edits (a brick that stays non-empty) are `O(1)`; topology edits
    /// (a brick appearing or disappearing) splice the sorted leaf/code arrays
    /// and rebuild the node levels.
    pub fn set_voxel(&mut self, c: VoxelCoord, occupied: bool) -> (r: Edit)
        requires
            old(self).wf(),
            codable(c, old(self).resolution),
            occupied && c.within(old(self).resolution) && !old(self).has_brick(
                brick_code(c) as int,
            ) ==> indexable(old(self).resolution, old(self).codes@.len() + 1),
        ensures
            edits(*old(self), *final(self), c, occupied, r),
    {
        let ghost before = *self;
        if !c.in_bounds(self.resolution) {
            return Edit::Unchanged;
        }
        let (lx, ly, lz) = (c.x, c.y, c.z);
        match self.locate(c) {
            Ok(idx) => {
                let mut leaf: LeafBrick = self.leaves[idx];
                if leaf.get_local(lx, ly, lz) == occupied {
                    return Edit::Unchanged;
                }
                let m: usize = morton::encode_brick(lx, ly, lz) as usize;
                if occupied {
                    leaf.set_local(lx, ly, lz);
                    self.leaves[idx] = leaf;
                    // A newly-set voxel reads the default material, not whatever
                    // the previous tenant of this Morton slot left behind.
                    self.materials[idx][m] = 0;
                    proof {
                        lemma_edit_in_place(before, *self, c, idx as int, true);
                        lemma_not_vacant(leaf, m as int);
                    }
                    Edit::Leaf(idx as u32)
                } else {
                    leaf.clear_local(lx, ly, lz);
                    self.leaves[idx] = leaf;
                    let ghost mid = *self;
                    proof {
                        lemma_edit_in_place(before, mid, c, idx as int, false);
                    }
                    if leaf.is_empty() {
                        // Last voxel removed: the brick disappears.
                        self.leaves.remove(idx);
                        self.codes.remove(idx);
                        self.materials.remove(idx);
                        proof {
                            lemma_removed_codes(mid.codes@, idx as int, mid.resolution);
                        }
                        self.rebuild_levels();
                        proof {
                            lemma_removed(mid, *self, idx as int);
                            lemma_not_shared(before, mid, c, idx as int);
                            lemma_bricks_removed(before, *self, idx as int);
                        }
                        Edit::Topology
                    } else {
                        proof {
                            lemma_shared(before, mid, c, idx as int);
                        }
                        Edit::Leaf(idx as u32)
                    }
                }
            },
            Err(at) => {
                if !occupied {
                    return Edit::Unchanged;
                }
                proof {
                    if self.resolution.levels() <= 5 {
                        lemma_few_codes(self.codes@, self.resolution.levels() as nat);
                    }
                }
                // A new brick appears, with a fresh all-default material grid.
                let code: u64 = brick_of(c, self.resolution);
                let mut leaf: LeafBrick = LeafBrick::empty();
                let ghost blank = leaf;
                leaf.set_local(lx, ly, lz);
                proof {
                    lemma_local_range(c.x, c.y, c.z);
                    assert forall|m: int| 0 <= m < 512 implies #[trigger] leaf@[m] == (m
                        == local_index(c.x, c.y, c.z)) by {
                        assert(!blank@[m]);
                    }
                }
                self.leaves.insert(at, leaf);
                self.codes.insert(at, code);
                self.materials.insert(at, Box::new([0u16;LEAF_VOXELS]));
                proof {
                    lemma_inserted_codes(before.codes@, at as int, code, before.resolution);
                }
                self.rebuild_levels();
                proof {
                    lemma_inserted(before, *self, c, at as int, code);
                    lemma_bricks_inserted(before, *self, at as int, code);
                }
                Edit::Topology
            },
        }
    }

    /// Assigns `global_id` (an index into the global material table) to the
    /// voxel at `coord`. The voxel **must be occupied**; colouring an empty or
    /// out-of-bounds voxel is a no-op ([`Edit::Unchanged`]), as is recolouring
    /// to the same id. An edit of a leaf that now spills, or that stops spilling,
    /// is a topology-class event that bumps the generation, so that the whole
    /// structure is uploaded again. The occupancy is never touched.
    pub fn set_material(&mut self, coord: VoxelCoord, global_id: u16) -> (r: Edit)
        requires
            old(self).wf(),
            codable(coord, old(self).resolution),
        ensures
            final(self).wf(),
            final(self).resolution == old(self).resolution,
            final(self).codes == old(self).codes,
            final(self).leaves == old(self).leaves,
            final(self).nodes == old(self).nodes,
            forall|d: VoxelCoord| #[trigger] final(self).occupied(d) == old(self).occupied(d),
            forall|d: VoxelCoord|
                #[trigger] final(self).material(d) == if d == coord && old(self).occupied(coord) {
                    global_id
                } else {
                    old(self).material(d)
                },
            r == Edit::Unchanged <==> !old(self).occupied(coord) || old(self).material(coord)
                == global_id,
            r == Edit::Unchanged ==> *final(self) == *old(self),
            r != Edit::Unchanged ==> {
                let i = old(self).slot(brick_code(coord) as int);
                let was = spills(old(self).materials@[i]@, old(self).leaves@[i]@);
                let now = spills(final(self).materials@[i]@, old(self).leaves@[i]@);
                &&& 0 <= i < old(self).codes@.len()
                &&& r == (Edit::Material { leaf: i as u32, spilled: now })
                &&& final(self).materials@.len() == old(self).materials@.len()
                &&& final(self).materials@[i]@ == old(self).materials@[i]@.update(
                    local_index(coord.x, coord.y, coord.z),
                    global_id,
                )
                &&& forall|j: int|
                    0 <= j < old(self).codes@.len() && j != i ==> #[trigger] final(self).materials@[j] == old(self).materials@[j]
                &&& final(self).topo_gen == if was != now || now {
                    old(self).topo_gen.wrapping_add(1)
                } else {
                    old(self).topo_gen
                }
            },
    {
        let ghost before = *self;
        if !coord.in_bounds(self.resolution) {
            return Edit::Unchanged;
        }
        let idx: usize = match self.locate(coord) {
            Ok(i) => i,
            Err(_) => {
                return Edit::Unchanged;
            },
        };
        let (lx, ly, lz) = (coord.x, coord.y, coord.z);
        if !self.leaves[idx].get_local(lx, ly, lz) {
            return Edit::Unchanged;
        }
        let m: usize = morton::encode_brick(lx, ly, lz) as usize;
        if self.materials[idx][m] == global_id {
            return Edit::Unchanged;
        }
        let was_spilled: bool = leaf_spills(&self.leaves[idx], &self.materials[idx]);
        self.materials[idx][m] = global_id;
        let now_spilled: bool = leaf_spills(&self.leaves[idx], &self.materials[idx]);
        if was_spilled != now_spilled || now_spilled {
            self.topo_gen = self.topo_gen.wrapping_add(1);
        }
        proof {
            lemma_recolored(before, *self, coord, idx as int, global_id);
        }
        Edit::Material { leaf: idx as u32, spilled: now_spilled }
    }

    /// The per-voxel material grid of leaf `idx` (intra-brick Morton order). `0`
    /// is the default / MISSING sentinel.
    #[must_use]
    pub fn leaf_materials(&self, idx: usize) -> (r: &[u16; LEAF_VOXELS])
        requires
            idx < self.materials@.len(),
        ensures
            r@ == self.materials@[idx as int]@,
    {
        &self.materials[idx]
    }

    /// The material global id at `coord` (`0` if empty / out of bounds).
    #[must_use]
    pub fn material_at(&self, coord: VoxelCoord) -> (r: u16)
        requires
            self.wf(),
            codable(coord, self.resolution),
        ensures
            r == self.material(coord),
    {
        if !coord.in_bounds(self.resolution) {
            return 0;
        }
        match self.locate(coord) {
            Ok(idx) => {
                if self.leaves[idx].get_local(coord.x, coord.y, coord.z) {
                    self.materials[idx][morton::encode_brick(coord.x, coord.y, coord.z) as usize]
                } else {
                    0
                }
            },
            Err(_) => 0,
        }
    }

    /// The leaf slot (index into `leaves` and the buffers parallel to it) whose
    /// brick contains `coord`, or `None` if no brick is stored there.
    #[must_use]
    pub fn leaf_slot_of(&self, coord: VoxelCoord) -> (r: Option<u32>)
        requires
            self.wf(),
            codable(coord, self.resolution),
        ensures
            r is Some <==> coord.within(self.resolution) && self.has_brick(
                brick_code(coord) as int,
            ),
            r matches Some(i) ==> i == self.slot(brick_code(coord) as int) && i
                < self.leaves@.len(),
    {
        if !coord.in_bounds(self.resolution) {
            return None;
        }
        match self.locate(coord) {
            Ok(idx) => Some(idx as u32),
            Err(_) => None,
        }
    }

    /// The voxel-space origin (min corner) of leaf `idx`'s 8³ brick. The inverse
    /// of [`leaf_slot_of`](Self::leaf_slot_of).
    #[must_use]
    pub fn leaf_origin(&self, idx: usize) -> (r: VoxelCoord)
        requires
            self.wf(),
            idx < self.codes@.len(),
        ensures
            brick_code(r) == self.codes@[idx as int],
            r.x % 8 == 0,
            r.y % 8 == 0,
            r.z % 8 == 0,
            r.within(self.resolution),
            codable(r, self.resolution),
            r.x <= 0xff_fff8,
            r.y <= 0xff_fff8,
            r.z <= 0xff_fff8,
    {
        let brick: VoxelCoord = morton::decode(self.codes[idx]);
        let r = VoxelCoord::new(brick.x * 8, brick.y * 8, brick.z * 8);
        proof {
            let k = self.resolution.levels() as nat;
            lemma_brick_inside(brick.x as nat, brick.y as nat, brick.z as nat, k);
            assert(r.x / 8 == brick.x && r.y / 8 == brick.y && r.z / 8 == brick.z);
        }
        r
    }

    /// Bulk-assigns a material to every **occupied** voxel via
    /// `f(world_coord) -> global_id`, writing the per-leaf grids directly.
    /// Unoccupied voxels keep their entry. Occupancy is untouched.
    pub fn fill_materials<F: Fn(VoxelCoord) -> u16>(&mut self, f: F)
        requires
            old(self).wf(),
            forall|c: VoxelCoord| #[trigger] old(self).occupied(c) ==> f.requires((c,)),
        ensures
            final(self).wf(),
            final(self).resolution == old(self).resolution,
            final(self).codes == old(self).codes,
            final(self).leaves == old(self).leaves,
            final(self).nodes == old(self).nodes,
            final(self).topo_gen == old(self).topo_gen,
            forall|c: VoxelCoord| #[trigger] final(self).occupied(c) == old(self).occupied(c),
            forall|c: VoxelCoord|
                old(self).occupied(c) ==> f.ensures((c,), #[trigger] final(self).material(c)),
            forall|i: int, m: int|
                #![trigger final(self).materials@[i]@[m]]
                0 <= i < old(self).leaves@.len() && 0 <= m < 512 && !old(self).leaves@[i]@[m]
                    ==> final(self).materials@[i]@[m] == old(self).materials@[i]@[m],
    {
        let ghost before = *self;
        let mut idx: usize = 0;
        while idx < self.codes.len()
            invariant
                idx <= self.codes@.len(),
                before.wf(),
                forall|c: VoxelCoord| #[trigger] before.occupied(c) ==> f.requires((c,)),
                self.resolution == before.resolution,
                self.codes == before.codes,
                self.leaves == before.leaves,
                self.nodes == before.nodes,
                self.topo_gen == before.topo_gen,
                self.materials@.len() == before.materials@.len(),
                forall|i: int|
                    0 <= i < idx ==> #[trigger] filled(before, self.materials@[i]@, f, i, 512),
                forall|i: int|
                    idx <= i < self.codes@.len() ==> #[trigger] filled(
                        before,
                        self.materials@[i]@,
                        f,
                        i,
                        0,
                    ),
            decreases self.codes.len() - idx,
        {
            self.fill_leaf(&f, idx, Ghost(before));
            idx = idx + 1;
        }
        proof {
            assert(self.wf());
            assert forall|c: VoxelCoord|
                #![trigger self.occupied(c)]
                #![trigger self.material(c)]
                self.occupied(c) == before.occupied(c) && (before.occupied(c) ==> f.ensures(
                    (c,),
                    self.material(c),
                )) by {
                let code = brick_code(c) as int;
                assert(self.has_brick(code) == before.has_brick(code));
                if before.occupied(c) {
                    let i = before.slot(code);
                    lemma_slot(before, i);
                    lemma_slot(*self, i);
                    lemma_local_range(c.x, c.y, c.z);
                    assert(filled(before, self.materials@[i]@, f, i, 512));
                    lemma_voxel_at(before, i, c);
                }
            }
            assert forall|i: int, m: int|
                #![trigger self.materials@[i]@[m]]
                0 <= i < before.leaves@.len() && 0 <= m < 512
                    && !before.leaves@[i]@[m] implies self.materials@[i]@[m]
                == before.materials@[i]@[m] by {
                assert(filled(before, self.materials@[i]@, f, i, 512));
            }
        }
    }

    /// Fills the material grid of leaf `idx`.
    fn fill_leaf<F: Fn(VoxelCoord) -> u16>(&mut self, f: &F, idx: usize, Ghost(before): Ghost<SparseTree>)
        requires
            before.wf(),
            forall|c: VoxelCoord| #[trigger] before.occupied(c) ==> f.requires((c,)),
            idx < old(self).codes@.len(),
            old(self).resolution == before.resolution,
            old(self).codes == before.codes,
            old(self).leaves == before.leaves,
            old(self).nodes == before.nodes,
            old(self).materials@.len() == before.materials@.len(),
            filled(before, old(self).materials@[idx as int]@, *f, idx as int, 0),
        ensures
            final(self).resolution == old(self).resolution,
            final(self).codes == old(self).codes,
            final(self).leaves == old(self).leaves,
            final(self).nodes == old(self).nodes,
            final(self).topo_gen == old(self).topo_gen,
            final(self).materials@.len() == old(self).materials@.len(),
            forall|i: int|
                0 <= i < before.codes@.len() && i != idx ==> #[trigger] final(self).materials@[i]
                    == old(self).materials@[i],
            filled(before, final(self).materials@[idx as int]@, *f, idx as int, 512),
    {
        let ghost start = *self;
        assert(self.wf());
        let origin: VoxelCoord = self.leaf_origin(idx);
        let leaf: LeafBrick = self.leaves[idx];
        let mut m: u32 = 0;
        while m < 512
            invariant
                m <= 512,
                before.wf(),
                forall|c: VoxelCoord| #[trigger] before.occupied(c) ==> f.requires((c,)),
                idx < self.codes@.len(),
                leaf == before.leaves@[idx as int],
                self.resolution == before.resolution,
                self.codes == before.codes,
                self.leaves == before.leaves,
                self.nodes == before.nodes,
                self.topo_gen == start.topo_gen,
                self.materials@.len() == before.materials@.len(),
                self.materials@.len() == start.materials@.len(),
                brick_code(origin) == before.codes@[idx as int],
                origin.x % 8 == 0 && origin.y % 8 == 0 && origin.z % 8 == 0,
                origin.within(before.resolution),
                origin.x <= 0xff_fff8 && origin.y <= 0xff_fff8 && origin.z <= 0xff_fff8,
                forall|i: int|
                    0 <= i < before.codes@.len() && i != idx ==> #[trigger] self.materials@[i]
                        == start.materials@[i],
                filled(before, self.materials@[idx as int]@, *f, idx as int, m as int),
            decreases 512 - m,
        {
            let ghost was = self.materials@[idx as int]@;
            if leaf.get_morton(m) {
                let l: VoxelCoord = morton::decode(m as u64);
                proof {
                    crate::morton::lemma_local_of_decode(l, m);
                    lemma_in_brick(origin, l, before.resolution);
                    lemma_slot(before, idx as int);
                }
                let c = VoxelCoord::new(origin.x + l.x, origin.y + l.y, origin.z + l.z);
                assert(before.occupied(c));
                let gid: u16 = f(c);
                self.materials[idx][m as usize] = gid;
                proof {
                    assert(voxel_at(before, idx as int, m as int, c));
                    assert forall|n: int, d: VoxelCoord| #[trigger]
                        voxel_at(before, idx as int, n, d) && n == m implies d == c by {
                        lemma_same_voxel(c, d);
                    }
                }
            }
            m = m + 1;
        }
    }

    /// The grid resolution.
    #[must_use]
    pub fn resolution(&self) -> (r: Resolution)
        ensures
            r == self.resolution,
    {
        self.resolution
    }

    /// The coarsest level index (`k + 1`).
    #[must_use]
    pub fn coarse_level(&self) -> (r: u32)
        ensures
            r == self.resolution.levels() + 1,
    {
        self.resolution.internal_levels() + 1
    }

    /// Total stored nodes across all internal levels.
    #[must_use]
    pub fn node_count(&self) -> (r: usize)
        requires
            node_total(self.nodes@, self.nodes@.len() as int) <= usize::MAX,
        ensures
            r == node_total(self.nodes@, self.nodes@.len() as int),
    {
        let mut total: usize = 0;
        let mut l: usize = 0;
        while l < self.nodes.len()
            invariant
                l <= self.nodes@.len(),
                node_total(self.nodes@, self.nodes@.len() as int) <= usize::MAX,
                total == node_total(self.nodes@, l as int),
            decreases self.nodes.len() - l,
        {
            proof {
                lemma_node_total_monotone(self.nodes@, l + 1, self.nodes@.len() as int);
            }
            total = total + self.nodes[l].len();
            l = l + 1;
        }
        total
    }

    /// Number of stored leaf bricks.
    #[must_use]
    pub fn leaf_count(&self) -> (r: usize)
        ensures
            r == self.leaves@.len(),
    {
        self.leaves.len()
    }

    /// Stored `4³` nodes at internal level `L` (`0` for the voxel/leaf levels).
    #[must_use]
    pub fn nodes_at_level(&self, level: u32) -> (r: usize)
        ensures
            r == if level < self.nodes@.len() {
                self.nodes@[level as int]@.len()
            } else {
                0
            },
    {
        if (level as usize) < self.nodes.len() {
            self.nodes[level as usize].len()
        } else {
            0
        }
    }

    /// Total occupied voxels.
    #[must_use]
    pub fn occupied_voxels(&self) -> (r: u64)
        requires
            self.leaves@.len() <= MAX_CELLS,
        ensures
            r == voxel_total(self.leaves@, self.leaves@.len() as int),
    {
        let mut total: u64 = 0;
        let mut i: usize = 0;
        while i < self.leaves.len()
            invariant
                i <= self.leaves@.len() <= MAX_CELLS,
                total == voxel_total(self.leaves@, i as int),
                total <= 512 * i,
            decreases self.leaves.len() - i,
        {
            proof {
                lemma_ones_monotone(self.leaves@[i as int]@, 0, 512);
            }
            total = total + self.leaves[i].count_occupied() as u64;
            i = i + 1;
        }
        total
    }

    /// Internal nodes at level `L` (empty for the voxel/leaf levels, and past the
    /// coarsest level).
    #[must_use]
    pub fn level_nodes(&self, level: u32) -> (r: &[GpuNode])
        ensures
            r@ == if level < self.nodes@.len() {
                self.nodes@[level as int]@
            } else {
                Seq::empty()
            },
    {
        if (level as usize) < self.nodes.len() {
            self.nodes[level as usize].as_slice()
        } else {
            &[]
        }
    }

    /// The Morton-sorted leaf array, shared by both layouts.
    #[must_use]
    pub fn leaves_slice(&self) -> (r: &[LeafBrick])
        ensures
            r@ == self.leaves@,
    {
        self.leaves.as_slice()
    }

    /// Point query: whether voxel `c` is occupied, by descending the tree and
    /// testing the leaf bit.
    #[must_use]
    pub fn is_occupied(&self, c: VoxelCoord) -> (r: bool)
        requires
            self.wf(),
        ensures
            r == self.occupied(c),
    {
        if self.leaves.len() == 0 || !c.in_bounds(self.resolution) {
            return false;
        }
        let (x, y, z) = (c.x, c.y, c.z);
        let (bx, by, bz) = (x >> 3, y >> 3, z >> 3);
        assert(x >> 3 == x / 8 && y >> 3 == y / 8 && z >> 3 == z / 8) by {
            lemma_parts(x);
            lemma_parts(y);
            lemma_parts(z);
        }
        let mut level: u32 = self.coarse_level();
        let mut idx: usize = 0;
        proof {
            lemma_root(*self, c);
        }
        while level >= 2
            invariant
                self.wf(),
                c.within(self.resolution),
                bx == c.x / 8 && by == c.y / 8 && bz == c.z / 8,
                1 <= level <= self.resolution.levels() + 1,
                idx < level_codes(self.nodes@, self.codes@, level as nat).len(),
                level_codes(self.nodes@, self.codes@, level as nat)[idx as int] == ancestor(
                    brick_code(c),
                    (level - 1) as nat,
                ),
            decreases level,
        {
            let node: GpuNode = self.nodes[level as usize][idx];
            let shift: u32 = 2 * (level - 2);
            let (cx, cy, cz) = (bx >> shift, by >> shift, bz >> shift);
            let bit: u32 = node::child_bit(cx, cy, cz);
            proof {
                lemma_descent_bit(bx, by, bz, (level - 2) as u32);
                lemma_step(*self, c, level as nat, idx as int);
                lemma_level_len(self.nodes@, self.codes@, self.resolution.levels() as nat, (level
                    - 1) as nat);
            }
            if !node.has_child(bit) {
                return false;
            }
            idx = node.child_slot(bit) as usize;
            level = level - 1;
        }
        proof {
            lemma_slot(*self, idx as int);
        }
        self.leaves[idx].get_local(c.x, c.y, c.z)
    }

    /// Rebuilds the internal node levels from the current `codes` and bumps the
    /// topology generation (leaf indices have changed).
    fn rebuild_levels(&mut self)
        requires
            old(self).resolution.wf(),
            codes_ok(old(self).resolution, old(self).codes@),
        ensures
            final(self).resolution == old(self).resolution,
            final(self).codes == old(self).codes,
            final(self).leaves == old(self).leaves,
            final(self).materials == old(self).materials,
            final(self).topo_gen == old(self).topo_gen.wrapping_add(1),
            are_levels(
                final(self).nodes@,
                final(self).codes@,
                final(self).resolution.levels() as nat,
            ),
    {
        self.nodes = build_levels(self.resolution.internal_levels(), &self.codes);
        self.topo_gen = self.topo_gen.wrapping_add(1);
    }
}

/// Setting voxel `c` to `v` takes tree `a` to tree `b` and is reported as `r`:
/// `c` changes state where it is in bounds, a changed voxel reads the default
/// material, and every other voxel keeps both. A brick appears with its first
/// voxel and disappears with its last; then, and only then, the generation
/// counts up.
pub open spec fn edits(a: SparseTree, b: SparseTree, c: VoxelCoord, v: bool, r: Edit) -> bool {
    &&& b.wf()
    &&& a.compact() ==> b.compact()
    &&& b.resolution == a.resolution
    &&& forall|d: VoxelCoord|
        #[trigger] b.occupied(d) == if d == c && c.within(a.resolution) {
            v
        } else {
            a.occupied(d)
        }
    &&& forall|d: VoxelCoord|
        #[trigger] b.material(d) == if d == c && r != Edit::Unchanged {
            0
        } else {
            a.material(d)
        }
    &&& r == Edit::Unchanged <==> !c.within(a.resolution) || a.occupied(c) == v
    &&& r == Edit::Unchanged ==> b == a
    &&& r == Edit::Topology <==> c.within(a.resolution) && a.occupied(c) != v && if v {
        !a.has_brick(brick_code(c) as int)
    } else {
        !a.shared(c)
    }
    &&& b.topo_gen == if r == Edit::Topology {
        a.topo_gen.wrapping_add(1)
    } else {
        a.topo_gen
    }
    &&& r matches Edit::Leaf(i) ==> in_place(a, b, i as int) && a.has_brick(brick_code(c) as int)
        && i == a.slot(brick_code(c) as int)
    &&& !(r matches Edit::Material { leaf: _, spilled: _ })
    &&& forall|d: int|
        #[trigger] b.has_brick(d) == if r == Edit::Topology && d == brick_code(c) {
            v
        } else {
            a.has_brick(d)
        }
    &&& b.codes@.len() == if r != Edit::Topology {
        a.codes@.len() as int
    } else if v {
        a.codes@.len() + 1int
    } else {
        a.codes@.len() - 1
    }
}

/// Only leaf `i` and its material grid may differ.
pub open spec fn in_place(a: SparseTree, b: SparseTree, i: int) -> bool {
    &&& 0 <= i < a.leaves@.len()
    &&& b.resolution == a.resolution
    &&& b.codes@ == a.codes@
    &&& b.nodes@ == a.nodes@
    &&& b.topo_gen == a.topo_gen
    &&& b.leaves@.len() == a.leaves@.len()
    &&& b.materials@.len() == a.materials@.len()
    &&& forall|j: int|
        0 <= j < a.leaves@.len() && j != i ==> #[trigger] b.leaves@[j] == a.leaves@[j]
    &&& forall|j: int|
        0 <= j < a.leaves@.len() && j != i ==> #[trigger] b.materials@[j] == a.materials@[j]
}

/// Which bricks are stored after one code is inserted.
proof fn lemma_bricks_inserted(a: SparseTree, b: SparseTree, at: int, code: u64)
    requires
        0 <= at <= a.codes@.len(),
        b.codes@ == a.codes@.insert(at, code),
    ensures
        forall|k: int| #[trigger] b.has_brick(k) == (k == code || a.has_brick(k)),
{
    assert forall|k: int| #[trigger] b.has_brick(k) == (k == code || a.has_brick(k)) by {
        if b.has_brick(k) {
            let j = b.slot(k);
            assert(b.codes@[j] == k);
            if j < at {
                assert(a.codes@[j] == k);
            } else if j > at {
                assert(a.codes@[j - 1] == k);
            }
        }
        if k == code {
            assert(b.codes@[at] == k);
        }
        if a.has_brick(k) {
            let j = a.slot(k);
            assert(a.codes@[j] == k);
            if j < at {
                assert(b.codes@[j] == k);
            } else {
                assert(b.codes@[j + 1] == k);
            }
        }
    }
}

/// Which bricks are stored after one code is removed.
proof fn lemma_bricks_removed(a: SparseTree, b: SparseTree, at: int)
    requires
        ascending(a.codes@),
        0 <= at < a.codes@.len(),
        b.codes@ == a.codes@.remove(at),
    ensures
        forall|k: int| #[trigger] b.has_brick(k) == (k != a.codes@[at] && a.has_brick(k)),
{
    assert forall|k: int| #[trigger] b.has_brick(k) == (k != a.codes@[at] && a.has_brick(k)) by {
        if b.has_brick(k) {
            let j = b.slot(k);
            assert(b.codes@[j] == k);
            if j < at {
                assert(a.codes@[j] == k);
                assert(a.codes@[j] < a.codes@[at]);
            } else {
                assert(a.codes@[j + 1] == k);
                assert(a.codes@[at] < a.codes@[j + 1]);
            }
        }
        if a.has_brick(k) && k != a.codes@[at] {
            let j = a.slot(k);
            assert(a.codes@[j] == k);
            if j < at {
                assert(b.codes@[j] == k);
            } else {
                assert(b.codes@[j - 1] == k);
            }
        }
    }
}

proof fn lemma_not_vacant(l: LeafBrick, m: int)
    requires
        0 <= m < 512,
        l@[m],
    ensures
        !l.vacant(),
{
    assert(l@[m]);
}

/// What setting or clearing one bit of one leaf does to the tree's voxels.
proof fn lemma_edit_in_place(a: SparseTree, b: SparseTree, c: VoxelCoord, i: int, v: bool)
    requires
        a.wf(),
        c.within(a.resolution),
        0 <= i < a.codes@.len(),
        a.codes@[i] == brick_code(c),
        in_place(a, b, i),
        b.leaves@[i]@ == a.leaves@[i]@.update(local_index(c.x, c.y, c.z), v),
        v ==> b.materials@[i]@ == a.materials@[i]@.update(local_index(c.x, c.y, c.z), 0),
        !v ==> b.materials@[i] == a.materials@[i],
    ensures
        b.wf(),
        forall|d: VoxelCoord|
            #[trigger] b.occupied(d) == if d == c {
                v
            } else {
                a.occupied(d)
            },
        forall|d: VoxelCoord|
            #[trigger] b.material(d) == if d == c {
                0
            } else {
                a.material(d)
            },
{
    lemma_slot(a, i);
    lemma_slot(b, i);
    lemma_local_range(c.x, c.y, c.z);
    lemma_view_len(a.leaves@[i]);
    assert forall|d: VoxelCoord|
        #![trigger b.occupied(d)]
        #![trigger b.material(d)]
        b.occupied(d) == (if d == c {
            v
        } else {
            a.occupied(d)
        }) && b.material(d) == (if d == c {
            0
        } else {
            a.material(d)
        }) by {
        let code = brick_code(d) as int;
        assert(b.has_brick(code) == a.has_brick(code));
        lemma_local_range(d.x, d.y, d.z);
        if a.has_brick(code) {
            let j = a.slot(code);
            lemma_slot(a, j);
            lemma_slot(b, j);
            if j == i && d != c {
                if local_index(d.x, d.y, d.z) == local_index(c.x, c.y, c.z) {
                    lemma_same_voxel(c, d);
                }
            }
        }
    }
}

/// After the clear, nothing else in the brick is occupied.
proof fn lemma_not_shared(a: SparseTree, b: SparseTree, c: VoxelCoord, i: int)
    requires
        a.wf(),
        b.wf(),
        0 <= i < a.codes@.len(),
        a.codes@[i] == brick_code(c),
        in_place(a, b, i),
        b.leaves@[i].vacant(),
        forall|d: VoxelCoord|
            #[trigger] b.occupied(d) == if d == c {
                false
            } else {
                a.occupied(d)
            },
    ensures
        !a.shared(c),
{
    if a.shared(c) {
        let d = choose|d: VoxelCoord|
            d != c && brick_code(d) == brick_code(c) && #[trigger] a.occupied(d);
        lemma_slot(b, i);
        lemma_local_range(d.x, d.y, d.z);
        assert(b.occupied(d));
        assert(b.leaves@[i]@[local_index(d.x, d.y, d.z)]);
    }
}

/// After the clear, something else in the brick is occupied.
proof fn lemma_shared(a: SparseTree, b: SparseTree, c: VoxelCoord, i: int)
    requires
        a.wf(),
        b.wf(),
        c.within(a.resolution),
        codable(c, a.resolution),
        0 <= i < a.codes@.len(),
        a.codes@[i] == brick_code(c),
        in_place(a, b, i),
        !b.leaves@[i].vacant(),
        b.leaves@[i]@ == a.leaves@[i]@.update(local_index(c.x, c.y, c.z), false),
    ensures
        a.shared(c),
{
    let m = choose|m: int| 0 <= m < 512 && #[trigger] b.leaves@[i]@[m];
    let l = crate::morton::lemma_local_onto(m);
    lemma_local_range(c.x, c.y, c.z);
    lemma_view_len(a.leaves@[i]);
    let d = VoxelCoord {
        x: (8 * (c.x / 8) + l.x) as u32,
        y: (8 * (c.y / 8) + l.y) as u32,
        z: (8 * (c.z / 8) + l.z) as u32,
    };
    lemma_in_brick(c, l, a.resolution);
    lemma_slot(a, i);
    assert(a.leaves@[i]@[m]);
    assert(d != c);
    assert(a.occupied(d));
}

/// A brick of an in-bounds voxel is wholly in bounds; its voxels share its code.
pub proof fn lemma_in_brick(c: VoxelCoord, l: VoxelCoord, resolution: Resolution)
    requires
        resolution.wf(),
        c.within(resolution),
        l.x < 8,
        l.y < 8,
        l.z < 8,
    ensures
        8 * (c.x / 8) + l.x <= u32::MAX,
        8 * (c.y / 8) + l.y <= u32::MAX,
        8 * (c.z / 8) + l.z <= u32::MAX,
        ({
            let d = VoxelCoord {
                x: (8 * (c.x / 8) + l.x) as u32,
                y: (8 * (c.y / 8) + l.y) as u32,
                z: (8 * (c.z / 8) + l.z) as u32,
            };
            &&& d.within(resolution)
            &&& brick_code(d) == brick_code(c)
            &&& local_index(d.x, d.y, d.z) == local_index(l.x, l.y, l.z)
        }),
{
    let n = resolution.side() as int;
    let p = pow4(resolution.levels() as nat) as int;
    assert(n == 8 * p);
    lemma_axis_in_brick(c.x as int, l.x as int, p);
    lemma_axis_in_brick(c.y as int, l.y as int, p);
    lemma_axis_in_brick(c.z as int, l.z as int, p);
}

proof fn lemma_axis_in_brick(c: int, l: int, p: int)
    requires
        0 <= c < 8 * p,
        0 <= l < 8,
    ensures
        8 * (c / 8) + l < 8 * p,
        (8 * (c / 8) + l) / 8 == c / 8,
        (8 * (c / 8) + l) % 8 == l,
{
}

proof fn lemma_removed_codes(codes: Seq<u64>, i: int, resolution: Resolution)
    requires
        codes_ok(resolution, codes),
        0 <= i < codes.len(),
    ensures
        codes_ok(resolution, codes.remove(i)),
{
    let r = codes.remove(i);
    assert forall|j: int| 0 <= j < r.len() implies #[trigger] r[j] == codes[if j < i {
        j
    } else {
        j + 1
    }] by {}
}

/// Removing an empty leaf changes no voxel.
proof fn lemma_removed(a: SparseTree, b: SparseTree, i: int)
    requires
        a.wf(),
        0 <= i < a.codes@.len(),
        a.leaves@[i].vacant(),
        b.resolution == a.resolution,
        b.codes@ == a.codes@.remove(i),
        b.leaves@ == a.leaves@.remove(i),
        b.materials@ == a.materials@.remove(i),
        are_levels(b.nodes@, b.codes@, b.resolution.levels() as nat),
    ensures
        b.wf(),
        forall|d: VoxelCoord| #[trigger] b.occupied(d) == a.occupied(d),
        forall|d: VoxelCoord| #[trigger] b.material(d) == a.material(d),
        (forall|j: int|
            0 <= j < a.leaves@.len() && j != i ==> !(#[trigger] a.leaves@[j]).vacant())
            ==> b.compact(),
{
    lemma_removed_codes(a.codes@, i, a.resolution);
    assert forall|d: VoxelCoord|
        #![trigger b.occupied(d)]
        #![trigger b.material(d)]
        b.occupied(d) == a.occupied(d) && b.material(d) == a.material(d) by {
        let code = brick_code(d) as int;
        lemma_local_range(d.x, d.y, d.z);
        if b.has_brick(code) {
            let j = b.slot(code);
            lemma_slot(b, j);
            lemma_slot(a, if j < i {
                j
            } else {
                j + 1
            });
        } else if a.has_brick(code) {
            let j = a.slot(code);
            if j != i {
                let k = if j < i {
                    j
                } else {
                    j - 1
                };
                assert(b.codes@[k] == code);
            }
        }
    }
    if forall|j: int| 0 <= j < a.leaves@.len() && j != i ==> !(#[trigger] a.leaves@[j]).vacant() {
        assert forall|j: int| 0 <= j < b.leaves@.len() implies !(
        #[trigger] b.leaves@[j]).vacant() by {
            assert(b.leaves@[j] == a.leaves@[if j < i {
                j
            } else {
                j + 1
            }]);
        }
    }
}

proof fn lemma_inserted_codes(codes: Seq<u64>, at: int, code: u64, resolution: Resolution)
    requires
        codes_ok(resolution, codes),
        codes.len() < MAX_CELLS,
        0 <= at <= codes.len(),
        code < 0x8000_0000_0000_0000,
        code < pow64(resolution.levels() as nat),
        forall|i: int| 0 <= i < at ==> #[trigger] codes[i] < code,
        forall|i: int| at <= i < codes.len() ==> code < #[trigger] codes[i],
    ensures
        codes_ok(resolution, codes.insert(at, code)),
{
    let r = codes.insert(at, code);
    assert forall|j: int| 0 <= j < r.len() implies #[trigger] r[j] == if j < at {
        codes[j]
    } else if j == at {
        code
    } else {
        codes[j - 1]
    } by {}
}

/// Inserting a one-voxel leaf adds that voxel and nothing else.
proof fn lemma_inserted(a: SparseTree, b: SparseTree, c: VoxelCoord, at: int, code: u64)
    requires
        a.wf(),
        c.within(a.resolution),
        codable(c, a.resolution),
        code == brick_code(c),
        a.codes@.len() < MAX_CELLS,
        0 <= at <= a.codes@.len(),
        code < 0x8000_0000_0000_0000,
        code < pow64(a.resolution.levels() as nat),
        forall|i: int| 0 <= i < at ==> #[trigger] a.codes@[i] < code,
        forall|i: int| at <= i < a.codes@.len() ==> code < #[trigger] a.codes@[i],
        b.resolution == a.resolution,
        b.codes@ == a.codes@.insert(at, code),
        b.leaves@.len() == a.leaves@.len() + 1,
        b.leaves@ == a.leaves@.insert(at, b.leaves@[at]),
        b.materials@.len() == a.materials@.len() + 1,
        b.materials@ == a.materials@.insert(at, b.materials@[at]),
        forall|m: int|
            0 <= m < 512 ==> #[trigger] b.leaves@[at]@[m] == (m == local_index(c.x, c.y, c.z)),
        forall|m: int| 0 <= m < 512 ==> #[trigger] b.materials@[at]@[m] == 0,
        are_levels(b.nodes@, b.codes@, b.resolution.levels() as nat),
    ensures
        b.wf(),
        forall|d: VoxelCoord| #[trigger] b.occupied(d) == (d == c || a.occupied(d)),
        forall|d: VoxelCoord|
            #[trigger] b.material(d) == if d == c {
                0
            } else {
                a.material(d)
            },
        a.compact() ==> b.compact(),
{
    lemma_inserted_codes(a.codes@, at, code, a.resolution);
    lemma_local_range(c.x, c.y, c.z);
    lemma_slot(b, at);
    assert forall|d: VoxelCoord|
        #![trigger b.occupied(d)]
        #![trigger b.material(d)]
        b.occupied(d) == (d == c || a.occupied(d)) && b.material(d) == (if d == c {
            0
        } else {
            a.material(d)
        }) by {
        let cd = brick_code(d) as int;
        lemma_local_range(d.x, d.y, d.z);
        if cd == code {
            assert(!a.has_brick(cd));
            if d != c && local_index(d.x, d.y, d.z) == local_index(c.x, c.y, c.z) {
                lemma_same_voxel(c, d);
            }
        } else if a.has_brick(cd) {
            let j = a.slot(cd);
            lemma_slot(a, j);
            lemma_slot(b, if j < at {
                j
            } else {
                j + 1
            });
        } else if b.has_brick(cd) {
            let j = b.slot(cd);
            if j < at {
                assert(a.codes@[j] == cd);
            } else {
                assert(a.codes@[j - 1] == cd);
            }
        }
    }
    if a.compact() {
        assert forall|j: int| 0 <= j < b.leaves@.len() implies !(
        #[trigger] b.leaves@[j]).vacant() by {
            if j == at {
                assert(b.leaves@[at]@[local_index(c.x, c.y, c.z)]);
            } else if j < at {
                assert(b.leaves@[j] == a.leaves@[j]);
            } else {
                assert(b.leaves@[j] == a.leaves@[j - 1]);
            }
        }
    }
}

/// `c` is the voxel of leaf `i` with local index `m`.
spec fn voxel_at(t: SparseTree, i: int, m: int, c: VoxelCoord) -> bool {
    &&& brick_code(c) == t.codes@[i]
    &&& local_index(c.x, c.y, c.z) == m
}

/// The first `n` entries of leaf `i`'s grid hold `f`'s answers where occupied;
/// all others are as they were.
spec fn filled<F: Fn(VoxelCoord) -> u16>(
    t: SparseTree,
    grid: Seq<u16>,
    f: F,
    i: int,
    n: int,
) -> bool {
    &&& grid.len() == 512
    &&& forall|m: int, c: VoxelCoord| #[trigger]
        voxel_at(t, i, m, c) && 0 <= m < n && t.leaves@[i]@[m] ==> f.ensures((c,), grid[m])
    &&& forall|m: int|
        0 <= m < 512 && (m >= n || !t.leaves@[i]@[m]) ==> #[trigger] grid[m]
            == t.materials@[i]@[m]
}

proof fn lemma_voxel_at(t: SparseTree, i: int, c: VoxelCoord)
    requires
        t.wf(),
        0 <= i < t.codes@.len(),
        t.codes@[i] == brick_code(c),
    ensures
        voxel_at(t, i, local_index(c.x, c.y, c.z), c),
{
}

/// What recolouring one voxel does to the tree.
proof fn lemma_recolored(a: SparseTree, b: SparseTree, c: VoxelCoord, i: int, gid: u16)
    requires
        a.wf(),
        c.within(a.resolution),
        0 <= i < a.codes@.len(),
        a.codes@[i] == brick_code(c),
        a.leaves@[i].occ(c.x, c.y, c.z),
        b.resolution == a.resolution,
        b.codes == a.codes,
        b.leaves == a.leaves,
        b.nodes == a.nodes,
        b.materials@.len() == a.materials@.len(),
        b.materials@[i]@ == a.materials@[i]@.update(local_index(c.x, c.y, c.z), gid),
        forall|j: int|
            0 <= j < a.codes@.len() && j != i ==> #[trigger] b.materials@[j] == a.materials@[j],
    ensures
        b.wf(),
        forall|d: VoxelCoord| #[trigger] b.occupied(d) == a.occupied(d),
        forall|d: VoxelCoord|
            #[trigger] b.material(d) == if d == c {
                gid
            } else {
                a.material(d)
            },
{
    lemma_slot(a, i);
    lemma_slot(b, i);
    lemma_local_range(c.x, c.y, c.z);
    assert forall|d: VoxelCoord|
        #![trigger b.occupied(d)]
        #![trigger b.material(d)]
        b.occupied(d) == a.occupied(d) && b.material(d) == (if d == c {
            gid
        } else {
            a.material(d)
        }) by {
        let code = brick_code(d) as int;
        assert(b.has_brick(code) == a.has_brick(code));
        lemma_local_range(d.x, d.y, d.z);
        if a.has_brick(code) {
            let j = a.slot(code);
            lemma_slot(a, j);
            lemma_slot(b, j);
            if j == i && d != c {
                if local_index(d.x, d.y, d.z) == local_index(c.x, c.y, c.z) {
                    lemma_same_voxel(c, d);
                }
            }
        }
    }
}

/// Nodes stored at the first `n` levels.
pub open spec fn node_total(nodes: Seq<Vec<GpuNode>>, n: int) -> nat
    decreases n,
{
    if n <= 0 {
        0
    } else {
        node_total(nodes, n - 1) + nodes[n - 1]@.len()
    }
}

proof fn lemma_node_total_monotone(nodes: Seq<Vec<GpuNode>>, a: int, b: int)
    requires
        0 <= a <= b,
    ensures
        node_total(nodes, a) <= node_total(nodes, b),
    decreases b,
{
    if a < b {
        lemma_node_total_monotone(nodes, a, b - 1);
    }
}

/// Voxels set in the first `n` leaves.
pub open spec fn voxel_total(leaves: Seq<LeafBrick>, n: int) -> nat
    decreases n,
{
    if n <= 0 {
        0
    } else {
        voxel_total(leaves, n - 1) + ones(leaves[n - 1]@, 512)
    }
}

/// No level has more cells than there are bricks; at node levels the cells are
/// the stored nodes.
pub proof fn lemma_level_len(nodes: Seq<Vec<GpuNode>>, codes: Seq<u64>, k: nat, level: nat)
    requires
        are_levels(nodes, codes, k),
        1 <= level <= k + 1,
    ensures
        level_codes(nodes, codes, level).len() <= codes.len(),
        level_codes(nodes, codes, level).len() == 0 <==> codes.len() == 0,
        level >= 2 ==> level_codes(nodes, codes, level).len() == nodes[level as int]@.len(),
    decreases level,
{
    if level >= 2 {
        let below = (level - 1) as nat;
        lemma_level_len(nodes, codes, k, below);
        assert(is_level(
            level_codes(nodes, codes, below),
            nodes[level as int]@,
            level_codes(nodes, codes, level),
        ));
        crate::levels::lemma_level_shrinks(
            level_codes(nodes, codes, below),
            nodes[level as int]@,
            level_codes(nodes, codes, level),
            0,
        );
    }
}

/// The tree's nodes fit `u32` indices. Always so up to five internal levels.
pub open spec fn nodes_indexable(t: SparseTree) -> bool {
    t.resolution.levels() <= 5 || {
        &&& node_total(t.nodes@, t.nodes@.len() as int) <= MAX_CELLS
        &&& node_total(t.nodes@, t.nodes@.len() as int) <= usize::MAX
    }
}

/// A grid of up to five internal levels has few nodes.
proof fn lemma_few_nodes(t: SparseTree, n: int)
    requires
        t.wf(),
        t.resolution.levels() <= 5,
        0 <= n <= t.nodes@.len(),
    ensures
        node_total(t.nodes@, n) <= 0x100_0000 * n,
    decreases n,
{
    if n > 0 {
        lemma_few_nodes(t, n - 1);
        if n >= 3 {
            lemma_few_at_level(t, (n - 1) as nat);
        }
    }
}

/// Such a grid has few cells at each node level.
proof fn lemma_few_at_level(t: SparseTree, l: nat)
    requires
        t.wf(),
        t.resolution.levels() <= 5,
        2 <= l < t.nodes@.len(),
    ensures
        t.nodes@[l as int]@.len() <= 0x100_0000,
{
    let k = t.resolution.levels() as nat;
    let codes = level_codes(t.nodes@, t.codes@, l);
    lemma_level_len(t.nodes@, t.codes@, k, l);
    if codes.len() > 0 {
        let last = codes.len() - 1;
        assert(is_level(
            level_codes(t.nodes@, t.codes@, (l - 1) as nat),
            t.nodes@[l as int]@,
            codes,
        ));
        lemma_code_at_least(codes, last);
        let i = lemma_stored_ancestor(t.nodes@, t.codes@, k, l, last);
        lemma_ancestor_bound(t.codes@[i] as nat, k, (l - 1) as nat);
        lemma_small_range((k - (l - 1)) as nat);
    }
}

proof fn lemma_small_range(j: nat)
    requires
        j <= 4,
    ensures
        pow64(j) <= 0x100_0000,
{
    reveal_with_fuel(pow64, 6);
}

/// What `nodes_indexable` says of the node count.
pub proof fn lemma_nodes_indexable(t: SparseTree)
    requires
        t.wf(),
        nodes_indexable(t),
    ensures
        node_total(t.nodes@, t.nodes@.len() as int) <= MAX_CELLS,
        node_total(t.nodes@, t.nodes@.len() as int) <= usize::MAX,
{
    if t.resolution.levels() <= 5 {
        lemma_few_nodes(t, t.nodes@.len() as int);
    }
}

/// There are at most as many nodes as bricks, per internal level.
pub proof fn lemma_node_total_bound(t: SparseTree, n: int)
    requires
        t.wf(),
        0 <= n <= t.nodes@.len(),
    ensures
        node_total(t.nodes@, n) <= (if n <= 2 {
            0
        } else {
            n - 2
        }) * t.codes@.len(),
    decreases n,
{
    let b = t.codes@.len() as int;
    if n > 0 {
        lemma_node_total_bound(t, n - 1);
        if n > 2 {
            lemma_level_len(t.nodes@, t.codes@, t.resolution.levels() as nat, (n - 1) as nat);
            assert((n - 3) * b + b == (n - 2) * b) by (nonlinear_arith);
        }
    }
    assert(0 * b == 0);
}

/// The root's code is the common ancestor of every brick in the grid.
proof fn lemma_root(t: SparseTree, c: VoxelCoord)
    requires
        t.wf(),
        t.codes@.len() > 0,
        c.within(t.resolution),
    ensures
        level_codes(t.nodes@, t.codes@, (t.resolution.levels() + 1) as nat).len() > 0,
        level_codes(t.nodes@, t.codes@, (t.resolution.levels() + 1) as nat)[0] == ancestor(
            brick_code(c),
            t.resolution.levels() as nat,
        ),
{
    let k = t.resolution.levels() as nat;
    lemma_level_len(t.nodes@, t.codes@, k, k + 1);
    let i = lemma_stored_ancestor(t.nodes@, t.codes@, k, k + 1, 0);
    lemma_ancestor_bound(t.codes@[i] as nat, k, k);
    lemma_brick_bound((c.x / 8) as nat, (c.y / 8) as nat, (c.z / 8) as nat, k);
    lemma_ancestor_bound(brick_code(c), k, k);
}

/// One step of a descent towards `c`: an absent child means that `c`'s brick is
/// not stored; a present one is its ancestor one level down.
proof fn lemma_step(t: SparseTree, c: VoxelCoord, level: nat, idx: int)
    requires
        t.wf(),
        2 <= level <= t.resolution.levels() + 1,
        0 <= idx < level_codes(t.nodes@, t.codes@, level).len(),
        level_codes(t.nodes@, t.codes@, level)[idx] == ancestor(
            brick_code(c),
            (level - 1) as nat,
        ),
    ensures
        ({
            let node = t.nodes@[level as int]@[idx];
            let b = (ancestor(brick_code(c), (level - 2) as nat) % 64) as int;
            let below = level_codes(t.nodes@, t.codes@, (level - 1) as nat);
            let i = node.child_base + node.rank(b);
            &&& idx < t.nodes@[level as int]@.len()
            &&& !node.has(b) ==> !t.has_brick(brick_code(c) as int)
            &&& node.has(b) ==> 0 <= i < below.len() && below[i] == ancestor(
                brick_code(c),
                (level - 2) as nat,
            )
        }),
{
    let k = t.resolution.levels() as nat;
    let below = level_codes(t.nodes@, t.codes@, (level - 1) as nat);
    let here = level_codes(t.nodes@, t.codes@, level);
    let nodes = t.nodes@[level as int]@;
    assert(is_level(below, nodes, here));
    let a = ancestor(brick_code(c), (level - 2) as nat);
    let b = (a % 64) as int;
    lemma_child_lookup(below, nodes, here, idx, b);
    assert(a == 64 * here[idx] + b);
    if t.has_brick(brick_code(c) as int) {
        let i = t.slot(brick_code(c) as int);
        let p = lemma_ancestor_stored(t.nodes@, t.codes@, k, i, (level - 1) as nat);
        assert(below[p] == a);
    }
}

impl NodeLayout for SparseTree {
    open spec fn grid(&self) -> Resolution {
        self.resolution
    }

    open spec fn valid(&self) -> bool {
        self.wf()
    }

    open spec fn spec_root(&self) -> Cell {
        if self.leaves@.len() == 0 {
            Cell::Empty
        } else if self.resolution.levels() == 0 {
            Cell::Leaf(0)
        } else {
            Cell::Node(0)
        }
    }

    open spec fn node_ok(&self, node: u32, level: u32) -> bool {
        2 <= level <= self.resolution.levels() + 1 && node < self.nodes@[level as int]@.len()
    }

    open spec fn spec_child(&self, node: u32, level: u32, b: u32) -> Cell {
        let n = self.nodes@[level as int]@[node as int];
        let slot = (n.child_base + n.rank(b as int)) as u32;
        if !n.has(b as int) {
            Cell::Empty
        } else if level == 2 {
            Cell::Leaf(slot)
        } else {
            Cell::Node(slot)
        }
    }

    open spec fn leaf_ok(&self, idx: u32) -> bool {
        idx < self.leaves@.len()
    }

    open spec fn spec_leaf(&self, idx: u32) -> LeafBrick {
        self.leaves@[idx as int]
    }

    fn resolution(&self) -> (r: Resolution) {
        let n: u32 = self.resolution.voxels_per_axis();
        self.resolution
    }

    fn root(&self) -> (r: Cell) {
        if self.leaves.len() == 0 {
            Cell::Empty
        } else if self.resolution.internal_levels() == 0 {
            Cell::Leaf(0)
        } else {
            proof {
                let k = self.resolution.levels() as nat;
                lemma_level_len(self.nodes@, self.codes@, k, k + 1);
            }
            Cell::Node(0)
        }
    }

    fn child(&self, node: u32, level: u32, child_bit: u32) -> (r: Cell) {
        let n: GpuNode = self.nodes[level as usize][node as usize];
        if !n.has_child(child_bit) {
            return Cell::Empty;
        }
        proof {
            let k = self.resolution.levels() as nat;
            let l = level as nat;
            lemma_level_len(self.nodes@, self.codes@, k, (l - 1) as nat);
            assert(is_level(
                level_codes(self.nodes@, self.codes@, (l - 1) as nat),
                self.nodes@[l as int]@,
                level_codes(self.nodes@, self.codes@, l),
            ));
            lemma_child_lookup(
                level_codes(self.nodes@, self.codes@, (l - 1) as nat),
                self.nodes@[l as int]@,
                level_codes(self.nodes@, self.codes@, l),
                node as int,
                child_bit as int,
            );
        }
        let slot: u32 = n.child_slot(child_bit);
        if level == 2 {
            Cell::Leaf(slot)
        } else {
            Cell::Node(slot)
        }
    }

    fn leaf(&self, idx: u32) -> (r: &LeafBrick) {
        &self.leaves[idx as usize]
    }
}

/// The cell of index `idx` at a level: a leaf brick at level 1, a node above.
pub open spec fn cell_at(level: nat, idx: int) -> Cell {
    if level <= 1 {
        Cell::Leaf(idx as u32)
    } else {
        Cell::Node(idx as u32)
    }
}

proof fn lemma_descends(t: SparseTree, level: nat, idx: int, c: VoxelCoord)
    requires
        t.wf(),
        c.within(t.resolution),
        1 <= level <= t.resolution.levels() + 1,
        0 <= idx < level_codes(t.nodes@, t.codes@, level).len(),
        level_codes(t.nodes@, t.codes@, level)[idx] == ancestor(
            brick_code(c),
            (level - 1) as nat,
        ),
    ensures
        descends(&t, cell_at(level, idx), level, c) == t.occupied(c),
        lands(&t, cell_at(level, idx), level, c) == t.leaf_cell(c),
    decreases level,
{
    let k = t.resolution.levels() as nat;
    lemma_level_len(t.nodes@, t.codes@, k, level);
    if level == 1 {
        lemma_slot(t, idx);
    } else {
        lemma_step(t, c, level, idx);
        lemma_level_len(t.nodes@, t.codes@, k, (level - 1) as nat);
        let node = t.nodes@[level as int]@[idx];
        let b = toward(c, level);
        let child = t.spec_child(idx as u32, level as u32, b);
        lemma_child_cell(t, level, idx, b);
        assert(descends(&t, cell_at(level, idx), level, c) == descends(
            &t,
            child,
            (level - 1) as nat,
            c,
        ));
        assert(lands(&t, cell_at(level, idx), level, c) == lands(
            &t,
            child,
            (level - 1) as nat,
            c,
        ));
        if node.has(b as int) {
            lemma_descends(t, (level - 1) as nat, node.child_base + node.rank(b as int), c);
        }
    }
}

proof fn lemma_child_cell(t: SparseTree, level: nat, idx: int, b: u32)
    requires
        2 <= level <= 15,
        0 <= idx < MAX_CELLS,
    ensures
        ({
            let node = t.nodes@[level as int]@[idx];
            let child = t.spec_child(idx as u32, level as u32, b);
            &&& !node.has(b as int) ==> child == Cell::Empty
            &&& node.has(b as int) ==> child == cell_at(
                (level - 1) as nat,
                node.child_base + node.rank(b as int),
            )
        }),
{
}

/// Descending the node levels by child bit and rank finds exactly the occupied
/// voxels: the levels and the sorted brick list say the same.
pub proof fn law_descent_finds_occupied(t: SparseTree, c: VoxelCoord)
    requires
        t.wf(),
    ensures
        stores(&t, c) == t.occupied(c),
{
    if c.within(t.resolution) {
        if t.codes@.len() > 0 {
            lemma_root(t, c);
            lemma_descends(t, (t.resolution.levels() + 1) as nat, 0, c);
        }
    }
}

/// A descent towards a voxel ends at the slot of the voxel's brick, or nowhere if
/// that brick is not stored.
pub proof fn law_descent_reaches_slot(t: SparseTree, c: VoxelCoord)
    requires
        t.wf(),
    ensures
        leaf_of(&t, c) == t.leaf_cell(c),
{
    if c.within(t.resolution) {
        if t.codes@.len() > 0 {
            lemma_root(t, c);
            lemma_descends(t, (t.resolution.levels() + 1) as nat, 0, c);
        }
    }
}

/// The structure is a function of the occupied set: two trees without empty
/// bricks over the same voxels have the same bricks, the same codes and the
/// same node levels. So a tree reached by any sequence of edits equals a fresh
/// build of the edited field.
pub proof fn law_structure_determined(a: SparseTree, b: SparseTree)
    requires
        a.wf(),
        b.wf(),
        a.compact(),
        b.compact(),
        a.resolution == b.resolution,
        forall|c: VoxelCoord| #[trigger] a.occupied(c) == b.occupied(c),
    ensures
        a.codes@ == b.codes@,
        a.leaves@ == b.leaves@,
        a.nodes@.len() == b.nodes@.len(),
        forall|l: int| 0 <= l < a.nodes@.len() ==> (#[trigger] a.nodes@[l])@ == b.nodes@[l]@,
{
    lemma_same_codes(a, b);
    lemma_same_leaves(a, b);
    lemma_same_levels(a.nodes@, b.nodes@, a.codes@, a.resolution.levels() as nat);
}

proof fn lemma_same_codes(a: SparseTree, b: SparseTree)
    requires
        a.wf(),
        b.wf(),
        a.compact(),
        b.compact(),
        a.resolution == b.resolution,
        forall|c: VoxelCoord| #[trigger] a.occupied(c) == b.occupied(c),
    ensures
        a.codes@ == b.codes@,
{
    assert forall|i: int| 0 <= i < a.codes@.len() implies #[trigger] b.has_brick(
        a.codes@[i] as int,
    ) by {
        lemma_brick_carries_over(a, b, i);
    }
    assert forall|i: int| 0 <= i < b.codes@.len() implies #[trigger] a.has_brick(
        b.codes@[i] as int,
    ) by {
        lemma_brick_carries_over(b, a, i);
    }
    lemma_ascending_equal(a, b);
}

proof fn lemma_same_leaves(a: SparseTree, b: SparseTree)
    requires
        a.wf(),
        b.wf(),
        a.resolution == b.resolution,
        a.codes@ == b.codes@,
        forall|c: VoxelCoord| #[trigger] a.occupied(c) == b.occupied(c),
    ensures
        a.leaves@ == b.leaves@,
{
    assert forall|i: int| 0 <= i < a.leaves@.len() implies a.leaves@[i] == b.leaves@[i] by {
        lemma_same_leaf(a, b, i);
    }
    assert(a.leaves@ =~= b.leaves@);
}

/// The node levels are determined by the brick codes.
pub proof fn lemma_same_levels(a: Seq<Vec<GpuNode>>, b: Seq<Vec<GpuNode>>, codes: Seq<u64>, k: nat)
    requires
        are_levels(a, codes, k),
        are_levels(b, codes, k),
    ensures
        a.len() == b.len(),
        forall|l: int| 0 <= l < a.len() ==> (#[trigger] a[l])@ == b[l]@,
{
    assert forall|l: int| 0 <= l < a.len() implies (#[trigger] a[l])@ == b[l]@ by {
        if l >= 2 {
            lemma_levels_determined(a, b, codes, k, l as nat);
        } else {
            assert(a[l]@ =~= b[l]@);
        }
    }
}

/// An in-bounds voxel of leaf `i`, by local index.
pub proof fn lemma_voxel_of(t: SparseTree, i: int, m: int) -> (c: VoxelCoord)
    requires
        t.wf(),
        0 <= i < t.codes@.len(),
        0 <= m < 512,
    ensures
        c.within(t.resolution),
        brick_code(c) == t.codes@[i],
        local_index(c.x, c.y, c.z) == m,
        t.occupied(c) == t.leaves@[i]@[m],
{
    let o = crate::morton::lemma_decoded(t.codes@[i]);
    let k = t.resolution.levels() as nat;
    lemma_brick_inside(o.x as nat, o.y as nat, o.z as nat, k);
    let base = VoxelCoord { x: (8 * o.x) as u32, y: (8 * o.y) as u32, z: (8 * o.z) as u32 };
    assert(base.x / 8 == o.x && base.y / 8 == o.y && base.z / 8 == o.z);
    let l = crate::morton::lemma_local_onto(m);
    lemma_in_brick(base, l, t.resolution);
    lemma_slot(t, i);
    VoxelCoord {
        x: (8 * (base.x / 8) + l.x) as u32,
        y: (8 * (base.y / 8) + l.y) as u32,
        z: (8 * (base.z / 8) + l.z) as u32,
    }
}

proof fn lemma_brick_carries_over(a: SparseTree, b: SparseTree, i: int)
    requires
        a.wf(),
        b.wf(),
        a.compact(),
        a.resolution == b.resolution,
        forall|c: VoxelCoord| #[trigger] a.occupied(c) == b.occupied(c),
        0 <= i < a.codes@.len(),
    ensures
        b.has_brick(a.codes@[i] as int),
{
    assert(!a.leaves@[i].vacant());
    let m = choose|m: int| 0 <= m < 512 && #[trigger] a.leaves@[i]@[m];
    let c = lemma_voxel_of(a, i, m);
    assert(b.occupied(c));
}

/// Trees with the same bricks list the same codes.
pub proof fn lemma_ascending_equal(a: SparseTree, b: SparseTree)
    requires
        ascending(a.codes@),
        ascending(b.codes@),
        forall|i: int|
            0 <= i < a.codes@.len() ==> #[trigger] b.has_brick(a.codes@[i] as int),
        forall|i: int|
            0 <= i < b.codes@.len() ==> #[trigger] a.has_brick(b.codes@[i] as int),
    ensures
        a.codes@ == b.codes@,
{
    if a.codes@.len() <= b.codes@.len() {
        lemma_ascending_prefix(a, b, a.codes@.len() as int);
        if a.codes@.len() < b.codes@.len() {
            let n = a.codes@.len() as int;
            assert(a.has_brick(b.codes@[n] as int));
            let j = a.slot(b.codes@[n] as int);
            assert(b.codes@[j] < b.codes@[n]);
        }
    } else {
        lemma_ascending_prefix(a, b, b.codes@.len() as int);
        let n = b.codes@.len() as int;
        assert(b.has_brick(a.codes@[n] as int));
        let j = b.slot(a.codes@[n] as int);
        assert(a.codes@[j] < a.codes@[n]);
    }
    assert(a.codes@ =~= b.codes@);
}

proof fn lemma_ascending_prefix(a: SparseTree, b: SparseTree, n: int)
    requires
        ascending(a.codes@),
        ascending(b.codes@),
        forall|i: int|
            0 <= i < a.codes@.len() ==> #[trigger] b.has_brick(a.codes@[i] as int),
        forall|i: int|
            0 <= i < b.codes@.len() ==> #[trigger] a.has_brick(b.codes@[i] as int),
        0 <= n <= a.codes@.len(),
        n <= b.codes@.len(),
    ensures
        forall|i: int| 0 <= i < n ==> #[trigger] a.codes@[i] == b.codes@[i],
    decreases n,
{
    if n > 0 {
        lemma_ascending_prefix(a, b, n - 1);
        let (x, y) = (a.codes@[n - 1], b.codes@[n - 1]);
        assert(b.has_brick(x as int));
        assert(a.has_brick(y as int));
        let (p, q) = (b.slot(x as int), a.slot(y as int));
        if x < y {
            if p >= n {
                assert(b.codes@[n - 1] < b.codes@[p]);
            } else if p < n - 1 {
                assert(a.codes@[p] == b.codes@[p]);
                assert(a.codes@[p] < a.codes@[n - 1]);
            }
        } else if y < x {
            if q >= n {
                assert(a.codes@[n - 1] < a.codes@[q]);
            } else if q < n - 1 {
                assert(a.codes@[q] == b.codes@[q]);
                assert(b.codes@[q] < b.codes@[n - 1]);
            }
        }
    }
}

proof fn lemma_same_leaf(a: SparseTree, b: SparseTree, i: int)
    requires
        a.wf(),
        b.wf(),
        a.resolution == b.resolution,
        a.codes@ == b.codes@,
        forall|c: VoxelCoord| #[trigger] a.occupied(c) == b.occupied(c),
        0 <= i < a.codes@.len(),
    ensures
        a.leaves@[i] == b.leaves@[i],
{
    assert forall|m: int| 0 <= m < 512 implies a.leaves@[i]@[m] == b.leaves@[i]@[m] by {
        let c = lemma_voxel_of(a, i, m);
        assert(a.occupied(c) == b.occupied(c));
        lemma_slot(b, i);
    }
    assert(a.leaves@[i]@ =~= b.leaves@[i]@);
    law_view_determines_brick(a.leaves@[i], b.leaves@[i]);
}

proof fn lemma_levels_determined(
    a: Seq<Vec<GpuNode>>,
    b: Seq<Vec<GpuNode>>,
    codes: Seq<u64>,
    k: nat,
    level: nat,
)
    requires
        are_levels(a, codes, k),
        are_levels(b, codes, k),
        1 <= level <= k + 1,
    ensures
        level_codes(a, codes, level) == level_codes(b, codes, level),
        level >= 2 ==> a[level as int]@ == b[level as int]@,
    decreases level,
{
    if level >= 2 {
        let below = (level - 1) as nat;
        lemma_levels_determined(a, b, codes, k, below);
        assert(is_level(
            level_codes(a, codes, below),
            a[level as int]@,
            level_codes(a, codes, level),
        ));
        assert(is_level(
            level_codes(b, codes, below),
            b[level as int]@,
            level_codes(b, codes, level),
        ));
        lemma_level_unique(
            level_codes(a, codes, below),
            a[level as int]@,
            level_codes(a, codes, level),
            b[level as int]@,
            level_codes(b, codes, level),
        );
    }
}

/// The slot of a leaf's origin is the leaf.
pub proof fn law_slot_of_origin(t: SparseTree, i: int, origin: VoxelCoord)
    requires
        t.wf(),
        0 <= i < t.codes@.len(),
        brick_code(origin) == t.codes@[i],
    ensures
        t.has_brick(brick_code(origin) as int),
        t.slot(brick_code(origin) as int) == i,
{
    lemma_slot(t, i);
}

/// Setting a voxel is the edit it says: the voxel reads back, every other voxel
/// keeps its state, setting it again changes nothing, and the generation moves on
/// with the bricks.
pub proof fn law_set_voxel_reads_back(
    t: &mut SparseTree,
    c: VoxelCoord,
    v: bool,
    r: Edit,
    d: VoxelCoord,
    now: bool,
)
    requires
        old(t).wf(),
        codable(c, old(t).resolution),
        v && c.within(old(t).resolution) && !old(t).has_brick(brick_code(c) as int) ==> indexable(
            old(t).resolution,
            old(t).codes@.len() + 1,
        ),
        call_ensures(SparseTree::set_voxel, (t, c, v), r),
        call_ensures(SparseTree::is_occupied, (&*final(t), d), now),
    ensures
        edits(*old(t), *final(t), c, v, r),
        final(t).wf(),
        d == c && c.within(old(t).resolution) ==> now == v,
        d != c ==> now == old(t).occupied(d),
        r == Edit::Unchanged <==> (forall|e: VoxelCoord| #[trigger]
            final(t).occupied(e) == old(t).occupied(e)),
        r == Edit::Topology <==> final(t).codes@.len() != old(t).codes@.len(),
        r matches Edit::Leaf(i) ==> final(t).codes@ == old(t).codes@ && final(t).topo_gen == old(
            t,
        ).topo_gen,
{
    assert(final(t).occupied(d) == final(t).occupied(d));
    assert(final(t).occupied(c) == final(t).occupied(c));
    if r == Edit::Unchanged {
        assert forall|e: VoxelCoord| #[trigger] final(t).occupied(e) == old(t).occupied(e) by {}
    } else {
        assert(final(t).occupied(c) != old(t).occupied(c));
    }
}

/// Recolouring reads back: an occupied voxel has the new material and every other
/// its own; the occupancy stays. The generation moves on exactly where a patch of
/// the leaf's slot would not do: where the leaf spilled before or spills now.
pub proof fn law_set_material_reads_back(
    t: &mut SparseTree,
    c: VoxelCoord,
    id: u16,
    r: Edit,
    d: VoxelCoord,
    now: u16,
)
    requires
        old(t).wf(),
        codable(c, old(t).resolution),
        codable(d, old(t).resolution),
        call_ensures(SparseTree::set_material, (t, c, id), r),
        call_ensures(SparseTree::material_at, (&*final(t), d), now),
    ensures
        final(t).wf(),
        final(t).occupied(d) == old(t).occupied(d),
        d == c && old(t).occupied(c) ==> now == id,
        d != c || !old(t).occupied(c) ==> now == old(t).material(d),
        r == Edit::Unchanged <==> old(t).material(c) == id && old(t).occupied(c) || !old(
            t,
        ).occupied(c),
        r matches Edit::Material { leaf, spilled } ==> {
            let i = leaf as int;
            let leaf_bits = old(t).leaves@[i]@;
            &&& old(t).codes@[i] == brick_code(c)
            &&& spilled == spills(final(t).materials@[i]@, leaf_bits)
            &&& final(t).topo_gen != old(t).topo_gen <==> spills(
                old(t).materials@[i]@,
                leaf_bits,
            ) || spilled
        },
        r == Edit::Unchanged || r is Material,
{
    assert(final(t).material(d) == final(t).material(d));
    assert(final(t).occupied(d) == final(t).occupied(d));
    if r != Edit::Unchanged {
        assert(old(t).has_brick(brick_code(c) as int));
    }
}

/// A leaf's origin is in its brick, and the brick's slot is the leaf; a voxel
/// whose brick is not stored has none.
pub proof fn law_origin_finds_slot(
    t: SparseTree,
    i: usize,
    o: VoxelCoord,
    r: Option<u32>,
    c: VoxelCoord,
    s: Option<u32>,
)
    requires
        t.wf(),
        i < t.codes@.len(),
        call_ensures(SparseTree::leaf_origin, (&t, i), o),
        call_ensures(SparseTree::leaf_slot_of, (&t, o), r),
        codable(c, t.resolution),
        call_ensures(SparseTree::leaf_slot_of, (&t, c), s),
    ensures
        r == Some(i as u32),
        o.x % 8 == 0 && o.y % 8 == 0 && o.z % 8 == 0 && o.within(t.resolution),
        t.occupied(c) ==> s is Some,
        s matches Some(j) ==> t.codes@[j as int] == brick_code(c) && c.within(t.resolution),
{
    law_slot_of_origin(t, i as int, o);
}

/// The counts are of what is stored: nodes level by level, leaves, and in them
/// the occupied voxels; a level that is not there counts nothing.
pub proof fn law_counts_are_of_the_parts(
    t: SparseTree,
    level: u32,
    at: usize,
    nodes: &[GpuNode],
    leaves: usize,
    list: &[LeafBrick],
    coarse: u32,
    generation: u64,
    i: usize,
    grid: &[u16; LEAF_VOXELS],
    all: usize,
    resolution: Resolution,
)
    requires
        t.wf(),
        call_ensures(SparseTree::nodes_at_level, (&t, level), at),
        call_ensures(SparseTree::level_nodes, (&t, level), nodes),
        call_ensures(SparseTree::leaf_count, (&t,), leaves),
        call_ensures(SparseTree::leaves_slice, (&t,), list),
        call_ensures(SparseTree::coarse_level, (&t,), coarse),
        call_ensures(SparseTree::topology_generation, (&t,), generation),
        call_ensures(SparseTree::resolution, (&t,), resolution),
        i < t.materials@.len(),
        call_ensures(SparseTree::leaf_materials, (&t, i), grid),
        node_total(t.nodes@, t.nodes@.len() as int) <= usize::MAX,
        call_ensures(SparseTree::node_count, (&t,), all),
    ensures
        at == nodes@.len(),
        level > coarse ==> at == 0,
        2 <= level <= coarse ==> nodes@ == t.nodes@[level as int]@,
        leaves == list@.len() && leaves == t.codes@.len(),
        list@ == t.leaves@,
        generation == t.topo_gen,
        resolution == t.resolution,
        grid@ == t.materials@[i as int]@,
        at <= all,
        coarse == t.nodes@.len() - 1,
{
    if level < t.nodes@.len() {
        lemma_node_part(t.nodes@, level as int, t.nodes@.len() as int);
    }
}

/// A level's nodes are among all.
proof fn lemma_node_part(nodes: Seq<Vec<GpuNode>>, level: int, n: int)
    requires
        0 <= level < n,
    ensures
        nodes[level]@.len() <= node_total(nodes, n),
    decreases n,
{
    if level < n - 1 {
        lemma_node_part(nodes, level, n - 1);
    }
}

/// A brick's code is its voxels': two voxels have one exactly where they lie in
/// the same brick.
pub proof fn law_brick_code_is_the_bricks(
    a: VoxelCoord,
    b: VoxelCoord,
    resolution: Resolution,
    p: u64,
    q: u64,
)
    requires
        resolution.wf(),
        a.within(resolution),
        b.within(resolution),
        codable(a, resolution),
        codable(b, resolution),
        call_ensures(brick_of, (a, resolution), p),
        call_ensures(brick_of, (b, resolution), q),
    ensures
        p == q <==> a.x / 8 == b.x / 8 && a.y / 8 == b.y / 8 && a.z / 8 == b.z / 8,
{
    if p == q {
        law_morton_injective(
            (a.x / 8) as nat,
            (a.y / 8) as nat,
            (a.z / 8) as nat,
            (b.x / 8) as nat,
            (b.y / 8) as nat,
            (b.z / 8) as nat,
        );
    }
}

/// Filling materials asks for each occupied voxel's and stores it there; the
/// occupancy, the generation and the free voxels' entries stay.
pub proof fn law_fill_is_by_voxel<F: Fn(VoxelCoord) -> u16>(
    t: &mut SparseTree,
    f: F,
    c: VoxelCoord,
    i: int,
    m: int,
)
    requires
        old(t).wf(),
        forall|d: VoxelCoord| #[trigger] old(t).occupied(d) ==> f.requires((d,)),
        call_ensures(SparseTree::fill_materials::<F>, (t, f), ()),
    ensures
        final(t).wf(),
        final(t).occupied(c) == old(t).occupied(c),
        old(t).occupied(c) ==> f.ensures((c,), final(t).material(c)),
        final(t).topo_gen == old(t).topo_gen,
        0 <= i < old(t).leaves@.len() && 0 <= m < 512 && !old(t).leaves@[i]@[m]
            ==> final(t).materials@[i]@[m] == old(t).materials@[i]@[m],
{
    assert(final(t).occupied(c) == final(t).occupied(c));
}

} // verus!
