//! Node layouts: how a descent resolves the root, children and leaves.
//!
//! Both the per-level arrays ([`crate::SparseTree`]) and the single depth-first
//! buffer ([`crate::SchoolBBuffer`]) implement [`NodeLayout`], so the *same*
//! traversal runs over both.

use crate::coord::VoxelCoord;
use crate::leaf::{LeafBounds, LeafBrick};
use crate::levels::ancestor;
use crate::morton::morton;
use crate::resolution::Resolution;
use vstd::prelude::*;

verus! {

/// A resolved cell during descent: an internal node, a leaf brick, or absent.
#[derive(Debug, Clone, Copy, PartialEq, Eq, Structural)]
pub enum Cell {
    /// An internal `4³` node, identified by a layout-specific `u32` handle.
    Node(u32),
    /// A leaf brick, identified by its index in the leaf array.
    Leaf(u32),
    /// No stored cell here (the parent's child-mask bit is clear).
    Empty,
}

/// A traversable node layout: resolves the root and, given a node and a child
/// index, the child cell.
pub trait NodeLayout {
    /// The grid the layout spans.
    spec fn grid(&self) -> Resolution;

    /// The layout's invariant.
    spec fn valid(&self) -> bool;

    /// The root cell.
    spec fn spec_root(&self) -> Cell;

    /// `node` is the handle of an internal node at traversal `level`.
    spec fn node_ok(&self, node: u32, level: u32) -> bool;

    /// The child of `node` for the Morton child index `b`.
    spec fn spec_child(&self, node: u32, level: u32, b: u32) -> Cell;

    /// `idx` is the index of a leaf brick.
    spec fn leaf_ok(&self, idx: u32) -> bool;

    /// The leaf brick at `idx`.
    spec fn spec_leaf(&self, idx: u32) -> LeafBrick;

    /// The grid resolution.
    fn resolution(&self) -> (r: Resolution)
        ensures
            r == self.grid(),
            r.wf(),
    ;

    /// The root cell: a [`Cell::Node`] for `k ≥ 1`, a [`Cell::Leaf`] for `k = 0`
    /// (single brick), or [`Cell::Empty`] for an empty structure.
    fn root(&self) -> (r: Cell)
        requires
            self.valid(),
        ensures
            r == self.spec_root(),
            r matches Cell::Node(n) ==> self.grid().levels() >= 1 && self.node_ok(
                n,
                (self.grid().levels() + 1) as u32,
            ),
            r matches Cell::Leaf(i) ==> self.grid().levels() == 0 && self.leaf_ok(i),
    ;

    /// The child of internal `node` (at traversal `level`) for the 6-bit Morton
    /// `child_bit`, or [`Cell::Empty`] if that child is absent.
    fn child(&self, node: u32, level: u32, child_bit: u32) -> (r: Cell)
        requires
            self.valid(),
            self.node_ok(node, level),
            child_bit < 64,
        ensures
            r == self.spec_child(node, level, child_bit),
            2 <= level <= self.grid().levels() + 1,
            r matches Cell::Node(n) ==> level > 2 && self.node_ok(n, (level - 1) as u32),
            r matches Cell::Leaf(i) ==> level == 2 && self.leaf_ok(i),
    ;

    /// The leaf brick at array index `idx`.
    fn leaf(&self, idx: u32) -> (r: &LeafBrick)
        requires
            self.valid(),
            self.leaf_ok(idx),
        ensures
            *r == self.spec_leaf(idx),
    ;

    /// The occupied-voxel [`LeafBounds`] of leaf `idx`, for the per-brick
    /// early-skip. Scans the brick unless the layout stores the packed bounds.
    fn leaf_bounds(&self, idx: u32) -> (r: LeafBounds)
        requires
            self.valid(),
            self.leaf_ok(idx),
        ensures
            self.spec_leaf(idx).bounded_by(r),
    {
        self.leaf(idx).occupied_bounds()
    }
}

/// Morton code of the `8³` brick that holds `c`.
pub open spec fn brick_code(c: VoxelCoord) -> nat {
    morton((c.x / 8) as nat, (c.y / 8) as nat, (c.z / 8) as nat)
}

/// The child index that leads from a node at `level` towards `c`.
pub open spec fn toward(c: VoxelCoord, level: nat) -> u32 {
    (ancestor(brick_code(c), (level - 2) as nat) % 64) as u32
}

/// Whether a descent from `cell` at `level` towards `c` ends at a set voxel.
pub open spec fn descends<L: NodeLayout + ?Sized>(
    l: &L,
    cell: Cell,
    level: nat,
    c: VoxelCoord,
) -> bool
    decreases level,
{
    match cell {
        Cell::Empty => false,
        Cell::Leaf(i) => l.spec_leaf(i).occ(c.x, c.y, c.z),
        Cell::Node(n) => level >= 2 && descends(
            l,
            l.spec_child(n, level as u32, toward(c, level)),
            (level - 1) as nat,
            c,
        ),
    }
}

/// The cell where a descent from `cell` at `level` towards `c` ends: a leaf, or
/// nothing.
pub open spec fn lands<L: NodeLayout + ?Sized>(
    l: &L,
    cell: Cell,
    level: nat,
    c: VoxelCoord,
) -> Cell
    decreases level,
{
    match cell {
        Cell::Node(n) => if level >= 2 {
            lands(l, l.spec_child(n, level as u32, toward(c, level)), (level - 1) as nat, c)
        } else {
            Cell::Empty
        },
        _ => cell,
    }
}

/// The leaf that a descent from the root towards `c` reaches, if any.
pub open spec fn leaf_of<L: NodeLayout + ?Sized>(l: &L, c: VoxelCoord) -> Cell {
    if c.within(l.grid()) {
        lands(l, l.spec_root(), (l.grid().levels() + 1) as nat, c)
    } else {
        Cell::Empty
    }
}

/// The voxels a layout stores: those a descent from the root finds set.
pub open spec fn stores<L: NodeLayout + ?Sized>(l: &L, c: VoxelCoord) -> bool {
    c.within(l.grid()) && descends(l, l.spec_root(), (l.grid().levels() + 1) as nat, c)
}

} // verus!
