//! Traversal levels: voxel, leaf brick, internal nodes.

use crate::resolution::{lemma_side_is_pow2, pow4};
use vstd::arithmetic::power2::pow2;
use vstd::bits::{lemma_u64_pow2_no_overflow, lemma_u64_shl_is_mul};
use vstd::prelude::*;

verus! {

/// A traversal level index `L`. `0` = voxel, `1` = leaf brick,
/// `≥ 2` = internal `4³` node.
#[derive(Debug, Clone, Copy, PartialEq, Eq, Structural, PartialOrd, Ord, Hash)]
pub struct Level(pub u32);

impl Level {
    /// Base-two logarithm of the cell edge: `0` at the voxel, else `2L + 1`.
    pub open spec fn log2_cell(self) -> nat {
        if self.0 == 0 {
            0
        } else {
            (2 * self.0 + 1) as nat
        }
    }

    /// The terminal level: an individual voxel. A set voxel bit is a hit.
    #[must_use]
    pub fn voxel() -> (r: Level)
        ensures
            r == Level(0),
    {
        Level(0)
    }

    /// The `8³` leaf brick level.
    #[must_use]
    pub fn leaf_brick() -> (r: Level)
        ensures
            r == Level(1),
    {
        Level(1)
    }

    /// An internal `4³` node level. Internal levels start at 2 by definition.
    #[must_use]
    pub fn internal(l: u32) -> (r: Level)
        requires
            l >= 2,
        ensures
            r == Level(l),
    {
        Level(l)
    }

    /// The coarsest internal level for a structure with `k` internal levels:
    /// `L = k + 1`.
    #[must_use]
    pub fn coarse(k: u32) -> (r: Level)
        requires
            k < u32::MAX,
        ensures
            r == Level((k + 1) as u32),
    {
        Level(k + 1)
    }

    /// The raw level index `L`.
    #[must_use]
    pub fn index(self) -> (r: u32)
        ensures
            r == self.0,
    {
        self.0
    }

    /// `true` iff this is the terminal voxel level.
    #[must_use]
    pub fn is_voxel(self) -> (r: bool)
        ensures
            r == (self == Level(0)),
    {
        self.0 == 0
    }

    /// The finer level (`L − 1`), reached on descent. The voxel level has none.
    #[must_use]
    pub fn finer(self) -> (r: Level)
        requires
            self.0 > 0,
        ensures
            r == Level((self.0 - 1) as u32),
    {
        Level(self.0 - 1)
    }

    /// The coarser level (`L + 1`), reached on ascent.
    #[must_use]
    pub fn coarser(self) -> (r: Level)
        requires
            self.0 < u32::MAX,
        ensures
            r == Level((self.0 + 1) as u32),
    {
        Level(self.0 + 1)
    }

    /// The `align` shift such that `cell_size = 1 << align`: `0` at the voxel,
    /// else `2L + 1`. The voxel→brick step is therefore `×8` (align `0 → 3`)
    /// and each internal step is `×4` (align `+2`).
    #[must_use]
    pub fn align(self) -> (r: u32)
        requires
            self.0 <= 0x7fff_ffff,
        ensures
            r == self.log2_cell(),
    {
        if self.0 == 0 {
            0
        } else {
            2 * self.0 + 1
        }
    }

    /// Cell edge length in **base voxels**: `1` at the voxel, `8` at the leaf
    /// brick, then `32, 128, …`. Equals `2^align`.
    #[must_use]
    pub fn cell_size(self) -> (r: u64)
        requires
            self.0 <= 31,
        ensures
            r == pow2(self.log2_cell()),
    {
        proof {
            lemma_u64_pow2_no_overflow(self.log2_cell());
            lemma_u64_shl_is_mul(1, self.log2_cell() as u64);
        }
        1u64 << self.align()
    }

    /// Number of low base-voxel address bits that identify the **parent**
    /// cell's origin: `2L + 3`. The parent of the voxel is the `8³` brick at
    /// `3` bits (the `×8` step); a brick or internal parent is at
    /// `2(L+1)+1 = 2L+3` bits.
    #[must_use]
    pub fn parent_bits(self) -> (r: u32)
        requires
            self.0 <= 0x7fff_fffe,
        ensures
            r == 2 * self.0 + 3,
    {
        2 * self.0 + 3
    }
}

/// The parent's extent is the parent's cell size: `2^parent_bits` is the cell
/// size one level up, at every level.
pub proof fn law_parent_extent(l: Level)
    requires
        l.0 < u32::MAX,
    ensures
        Level((l.0 + 1) as u32).log2_cell() == 2 * l.0 + 3,
{
}

/// Descending then ascending is the identity.
pub proof fn law_descend_ascend(l: Level)
    requires
        l.0 > 0,
    ensures
        Level((Level((l.0 - 1) as u32).0 + 1) as u32) == l,
{
}

/// Descent and ascent undo each other, and one step is one level: a finer level's
/// coarser one is the level itself, and the other way round. From the brick a
/// step down is the voxel, which alone has no level below.
pub proof fn law_steps_undo(l: Level, down: Level, up: Level, back: Level, brick: Level)
    requires
        0 < l.0 < u32::MAX,
        call_ensures(Level::finer, (l,), down),
        call_ensures(Level::coarser, (l,), up),
    ensures
        call_ensures(Level::coarser, (down,), back) ==> back == l,
        call_ensures(Level::finer, (up,), back) ==> back == l,
        down != l && up != l,
        call_ensures(Level::leaf_brick, (), brick) && call_ensures(Level::finer, (brick,), back)
            ==> call_ensures(Level::voxel, (), down) ==> back == down,
{
}

/// The step between two levels: going up from the voxel a cell is eight times as
/// long, and four times from any level above. The parent's address bits are the
/// alignment of the level above, and a cell is as long as its alignment says.
pub proof fn law_steps_scale(l: Level, up: Level, low: u32, high: u32, bits: u32)
    requires
        l.0 < 31,
        call_ensures(Level::coarser, (l,), up),
        call_ensures(Level::align, (l,), low),
        call_ensures(Level::align, (up,), high),
        call_ensures(Level::parent_bits, (l,), bits),
    ensures
        high == low + if l == Level(0) {
            3int
        } else {
            2
        },
        l == Level(0) ==> low == 0,
        bits == high,
        pow2(up.log2_cell()) == pow2(l.log2_cell()) * if l == Level(0) {
            8int
        } else {
            4
        },
{
    vstd::arithmetic::power2::lemma2_to64();
    vstd::arithmetic::power2::lemma_pow2_adds(2, l.log2_cell());
    vstd::arithmetic::power2::lemma_pow2_adds(3, l.log2_cell());
}

/// A level's cell size is two to its alignment; it is one exactly at the voxel.
pub proof fn law_cell_size_is_aligned(l: Level, size: u64, shift: u32, voxel: bool)
    requires
        l.0 <= 31,
        call_ensures(Level::cell_size, (l,), size),
        call_ensures(Level::align, (l,), shift),
        call_ensures(Level::is_voxel, (l,), voxel),
    ensures
        size == pow2(shift as nat),
        voxel <==> size == 1,
{
    vstd::arithmetic::power2::lemma2_to64();
    if l.0 > 0 {
        vstd::arithmetic::power2::lemma_pow2_strictly_increases(0, l.log2_cell());
    }
}

/// The coarsest level's cell is the whole grid: with `k` internal levels its edge
/// is `8 · 4^k`.
pub proof fn law_coarse_cell_is_the_grid(k: u32, l: Level)
    requires
        k < u32::MAX,
        call_ensures(Level::coarse, (k,), l),
    ensures
        pow2(l.log2_cell()) == 8 * pow4(k as nat),
{
    lemma_side_is_pow2(k as nat);
}

/// A level is its index: made of one it reads back.
pub proof fn law_level_reads_back(
    l: u32,
    level: Level,
    i: u32,
    voxel: Level,
    brick: Level,
    j: u32,
    k: u32,
)
    requires
        l >= 2,
        call_ensures(Level::internal, (l,), level),
        call_ensures(Level::index, (level,), i),
        call_ensures(Level::voxel, (), voxel),
        call_ensures(Level::leaf_brick, (), brick),
        call_ensures(Level::index, (voxel,), j),
        call_ensures(Level::index, (brick,), k),
    ensures
        i == l,
        j == 0,
        k == 1,
{
}

} // verus!
