//! The integer side of the structure measurements: how many cells and bytes each
//! level holds, how far rays descend, and the pseudo-random stream the sample
//! rays and edits are drawn from.

use crate::bits::{lemma_ones_zero, lemma_unit_factor};
use crate::leaf::lemma_view_len;
use crate::level::Level;
use crate::levels::{is_level, lemma_level_shrinks, level_codes};
use crate::sparse::{lemma_level_len, node_total, voxel_total, SparseTree};
use crate::traverse::TraversalStats;
use vstd::arithmetic::power2::pow2;
use vstd::prelude::*;

verus! {

broadcast use lemma_view_len;

/// Storage bytes for one stored `4³` node ([`GpuNode`](crate::GpuNode)): three
/// `u32`.
pub const NODE_BYTES: u64 = 12;

/// Storage bytes for one `8³` leaf brick: 512 bits.
pub const LEAF_BYTES: u64 = 64;

/// A representative GPU L2 slice for the cache-residency verdict (4 MiB).
pub const REPRESENTATIVE_L2: u64 = 4_194_304;

/// Occupancy and storage at one level.
#[derive(Debug, Clone, Copy, PartialEq, Eq, Structural)]
pub struct LevelFootprint {
    /// Traversal level `L` (`0` = voxel, `1` = leaf brick, `≥2` = internal).
    pub level: u32,
    /// Cell edge in base voxels.
    pub cell_size: u64,
    /// Non-empty cells at this level, `N(L)`.
    pub count: u64,
    /// Stored bytes at this level (`0` at the voxel level — voxels live inside
    /// leaves, not as separate cells).
    pub bytes: u64,
}

/// Non-empty cells of a tree at a level.
pub open spec fn cells_at(t: SparseTree, level: int) -> nat {
    if level <= 0 {
        voxel_total(t.leaves@, t.leaves@.len() as int)
    } else if level == 1 {
        t.leaves@.len()
    } else {
        t.nodes@[level]@.len()
    }
}

/// Bytes a tree stores at a level.
pub open spec fn bytes_at(t: SparseTree, level: int) -> int {
    if level <= 0 {
        0
    } else if level == 1 {
        cells_at(t, level) * LEAF_BYTES
    } else {
        cells_at(t, level) * NODE_BYTES
    }
}

/// The footprint of one level of a tree.
pub open spec fn is_footprint(t: SparseTree, f: LevelFootprint, level: int) -> bool {
    &&& f.level == level
    &&& f.cell_size == pow2(Level(level as u32).log2_cell())
    &&& f.count == cells_at(t, level)
    &&& f.bytes == bytes_at(t, level)
}

/// Per-level occupancy and footprint, coarsest first.
#[must_use]
pub fn per_level_footprint(tree: &SparseTree) -> (r: Vec<LevelFootprint>)
    requires
        tree.wf(),
    ensures
        r@.len() == tree.resolution.levels() + 2,
        forall|i: int|
            0 <= i < r@.len() ==> is_footprint(
                *tree,
                #[trigger] r@[i],
                tree.resolution.levels() + 1 - i,
            ),
{
    let coarse: u32 = tree.coarse_level();
    let mut levels: Vec<LevelFootprint> = Vec::new();
    let mut i: u32 = 0;
    while i <= coarse
        invariant
            tree.wf(),
            i <= coarse + 1,
            coarse == tree.resolution.levels() + 1,
            coarse <= 15,
            levels@.len() == i,
            forall|j: int|
                0 <= j < i ==> is_footprint(*tree, #[trigger] levels@[j], coarse - j),
        decreases coarse + 1 - i,
    {
        let level: u32 = coarse - i;
        let (count, bytes): (u64, u64) = if level == 0 {
            (tree.occupied_voxels(), 0)
        } else if level == 1 {
            let c: u64 = tree.leaf_count() as u64;
            (c, c * LEAF_BYTES)
        } else {
            let c: u64 = tree.nodes_at_level(level) as u64;
            proof {
                lemma_level_len(
                    tree.nodes@,
                    tree.codes@,
                    tree.resolution.levels() as nat,
                    level as nat,
                );
            }
            (c, c * NODE_BYTES)
        };
        levels.push(LevelFootprint { level, cell_size: Level(level).cell_size(), count, bytes });
        i = i + 1;
    }
    levels
}

/// Bytes stored in the first `n` levels of a list.
pub open spec fn byte_sum(levels: Seq<LevelFootprint>, n: int) -> nat
    decreases n,
{
    if n <= 0 {
        0
    } else {
        byte_sum(levels, n - 1) + levels[n - 1].bytes as nat
    }
}

proof fn lemma_byte_sum_grows(levels: Seq<LevelFootprint>, a: int, b: int)
    requires
        0 <= a <= b,
    ensures
        byte_sum(levels, a) <= byte_sum(levels, b),
    decreases b - a,
{
    if a < b {
        lemma_byte_sum_grows(levels, a, b - 1);
    }
}

/// Total stored bytes over the levels.
#[must_use]
pub fn total_bytes(levels: &[LevelFootprint]) -> (r: u64)
    requires
        byte_sum(levels@, levels@.len() as int) <= u64::MAX,
    ensures
        r == byte_sum(levels@, levels@.len() as int),
{
    let mut total: u64 = 0;
    let mut i: usize = 0;
    while i < levels.len()
        invariant
            i <= levels@.len(),
            byte_sum(levels@, levels@.len() as int) <= u64::MAX,
            total == byte_sum(levels@, i as int),
        decreases levels@.len() - i,
    {
        proof {
            lemma_byte_sum_grows(levels@, i + 1, levels@.len() as int);
        }
        total = total + levels[i].bytes;
        i = i + 1;
    }
    total
}

/// Whether a structure of `total` bytes spills the representative L2 cache.
#[must_use]
pub fn spills_l2(total: u64) -> (r: bool)
    ensures
        r == (total > REPRESENTATIVE_L2),
{
    total > REPRESENTATIVE_L2
}

/// Running totals over a batch of rays.
#[derive(Debug, Clone, Copy, PartialEq, Eq, Structural)]
pub struct RayTally {
    /// Rays that hit.
    pub hits: u64,
    /// Cells descended into, over all rays.
    pub descents: u64,
    /// The most any single ray descended.
    pub max_descents: u64,
    /// Cells examined, over all rays.
    pub cell_steps: u64,
    /// The most any single ray examined.
    pub max_cell_steps: u64,
}

impl Default for RayTally {
    fn default() -> (r: Self)
        ensures
            r == (RayTally {
                hits: 0,
                descents: 0,
                max_descents: 0,
                cell_steps: 0,
                max_cell_steps: 0,
            }),
    {
        RayTally { hits: 0, descents: 0, max_descents: 0, cell_steps: 0, max_cell_steps: 0 }
    }
}

impl RayTally {
    /// The tally with one more ray.
    pub open spec fn recorded(self, hit: bool, stats: TraversalStats) -> RayTally {
        RayTally {
            hits: (self.hits + if hit {
                1int
            } else {
                0
            }) as u64,
            descents: (self.descents + stats.descents) as u64,
            max_descents: if self.max_descents < stats.descents {
                stats.descents
            } else {
                self.max_descents
            },
            cell_steps: (self.cell_steps + stats.cell_steps) as u64,
            max_cell_steps: if self.max_cell_steps < stats.cell_steps {
                stats.cell_steps
            } else {
                self.max_cell_steps
            },
        }
    }

    /// Adds one ray's counters.
    pub fn record(&mut self, hit: bool, stats: TraversalStats)
        requires
            old(self).hits < u64::MAX,
            old(self).descents + stats.descents <= u64::MAX,
            old(self).cell_steps + stats.cell_steps <= u64::MAX,
        ensures
            *final(self) == old(self).recorded(hit, stats),
            final(self).hits == old(self).hits + if hit {
                1int
            } else {
                0
            },
            final(self).descents == old(self).descents + stats.descents,
            final(self).cell_steps == old(self).cell_steps + stats.cell_steps,
            final(self).max_descents == if old(self).max_descents < stats.descents {
                stats.descents
            } else {
                old(self).max_descents
            },
            final(self).max_cell_steps == if old(self).max_cell_steps < stats.cell_steps {
                stats.cell_steps
            } else {
                old(self).max_cell_steps
            },
    {
        if hit {
            self.hits = self.hits + 1;
        }
        self.descents = self.descents + stats.descents;
        self.cell_steps = self.cell_steps + stats.cell_steps;
        if self.max_descents < stats.descents {
            self.max_descents = stats.descents;
        }
        if self.max_cell_steps < stats.cell_steps {
            self.max_cell_steps = stats.cell_steps;
        }
    }
}

/// The output mixing of the splitmix64 generator.
pub open spec fn mix64(state: u64) -> u64 {
    let a = (state ^ (state >> 30)).wrapping_mul(0xBF58_476D_1CE4_E5B9);
    let b = (a ^ (a >> 27)).wrapping_mul(0x94D0_49BB_1331_11EB);
    b ^ (b >> 31)
}

/// One splitmix64 step: advances the state by the golden-ratio increment and
/// mixes it.
pub fn splitmix64(state: &mut u64) -> (r: u64)
    ensures
        *final(state) == old(state).wrapping_add(0x9E37_79B9_7F4A_7C15),
        r == mix64(*final(state)),
{
    *state = (*state).wrapping_add(0x9E37_79B9_7F4A_7C15);
    let mut z: u64 = *state;
    z = (z ^ (z >> 30)).wrapping_mul(0xBF58_476D_1CE4_E5B9);
    z = (z ^ (z >> 27)).wrapping_mul(0x94D0_49BB_1331_11EB);
    z ^ (z >> 31)
}

/// One splitmix64 step, mapped to a coordinate in `0..n`.
pub fn rng_coord(state: &mut u64, n: u32) -> (r: u32)
    requires
        n > 0,
    ensures
        *final(state) == old(state).wrapping_add(0x9E37_79B9_7F4A_7C15),
        r == mix64(*final(state)) % (n as u64),
        r < n,
{
    let z: u64 = splitmix64(state);
    (z % n as u64) as u32
}

/// The stored bytes of a whole tree: every node and every leaf once.
pub proof fn law_total_is_nodes_and_leaves(t: SparseTree, levels: Seq<LevelFootprint>)
    requires
        t.wf(),
        levels.len() == t.resolution.levels() + 2,
        forall|i: int|
            0 <= i < levels.len() ==> is_footprint(
                t,
                #[trigger] levels[i],
                t.resolution.levels() + 1 - i,
            ),
    ensures
        byte_sum(levels, levels.len() as int) == NODE_BYTES * node_total(
            t.nodes@,
            t.nodes@.len() as int,
        ) + LEAF_BYTES * t.leaves@.len(),
{
    let k = t.resolution.levels() as int;
    lemma_node_bytes(t, levels, k);
    assert(is_footprint(t, levels[k], 1) && is_footprint(t, levels[k + 1], 0));
    assert(byte_sum(levels, k + 1) == byte_sum(levels, k) + LEAF_BYTES * t.leaves@.len());
    assert(node_total(t.nodes@, 1) == node_total(t.nodes@, 0) + t.nodes@[0]@.len());
    assert(node_total(t.nodes@, 2) == node_total(t.nodes@, 1) + t.nodes@[1]@.len());
    assert(node_total(t.nodes@, 0) == 0);
}

/// The first `n` internal levels, coarsest first.
proof fn lemma_node_bytes(t: SparseTree, levels: Seq<LevelFootprint>, n: int)
    requires
        t.wf(),
        levels.len() == t.resolution.levels() + 2,
        forall|i: int|
            0 <= i < levels.len() ==> is_footprint(
                t,
                #[trigger] levels[i],
                t.resolution.levels() + 1 - i,
            ),
        0 <= n <= t.resolution.levels(),
    ensures
        byte_sum(levels, n) == NODE_BYTES * (node_total(t.nodes@, t.nodes@.len() as int)
            - node_total(t.nodes@, t.nodes@.len() - n)),
    decreases n,
{
    let len = t.nodes@.len() as int;
    if n > 0 {
        lemma_node_bytes(t, levels, n - 1);
        let level = t.resolution.levels() + 1 - (n - 1);
        assert(is_footprint(t, levels[n - 1], level));
        assert(level == len - n);
        assert(node_total(t.nodes@, len - n + 1) == node_total(t.nodes@, len - n)
            + t.nodes@[len - n]@.len());
    }
}

/// Occupancy grows toward fine levels: a tree without empty bricks has at least
/// as many non-empty cells at a level as at the level above.
pub proof fn law_counts_grow_finer(t: SparseTree, level: int)
    requires
        t.wf(),
        t.compact(),
        0 <= level <= t.resolution.levels(),
    ensures
        cells_at(t, level + 1) <= cells_at(t, level),
{
    let k = t.resolution.levels() as nat;
    if level == 0 {
        lemma_voxels_cover(t, t.leaves@.len() as int);
    } else {
        let above = (level + 1) as nat;
        let below = level as nat;
        assert(is_level(
            level_codes(t.nodes@, t.codes@, below),
            t.nodes@[above as int]@,
            level_codes(t.nodes@, t.codes@, above),
        ));
        lemma_level_shrinks(
            level_codes(t.nodes@, t.codes@, below),
            t.nodes@[above as int]@,
            level_codes(t.nodes@, t.codes@, above),
            0,
        );
        lemma_level_len(t.nodes@, t.codes@, k, below);
    }
}

/// Bricks that are not empty hold at least one voxel each.
proof fn lemma_voxels_cover(t: SparseTree, n: int)
    requires
        t.compact(),
        0 <= n <= t.leaves@.len(),
    ensures
        voxel_total(t.leaves@, n) >= n,
    decreases n,
{
    if n > 0 {
        lemma_voxels_cover(t, n - 1);
        assert(!t.leaves@[n - 1].vacant());
        lemma_ones_zero(t.leaves@[n - 1]@, 512);
    }
}

/// A batch's rays, added one by one.
pub open spec fn tallied(rays: Seq<(bool, TraversalStats)>) -> RayTally
    decreases rays.len(),
{
    if rays.len() == 0 {
        RayTally { hits: 0, descents: 0, max_descents: 0, cell_steps: 0, max_cell_steps: 0 }
    } else {
        tallied(rays.drop_last()).recorded(rays.last().0, rays.last().1)
    }
}

/// The sum of a batch's counters.
pub open spec fn counted(rays: Seq<(bool, TraversalStats)>) -> (nat, nat, nat)
    decreases rays.len(),
{
    if rays.len() == 0 {
        (0, 0, 0)
    } else {
        let before = counted(rays.drop_last());
        (
            before.0 + if rays.last().0 {
                1nat
            } else {
                0
            },
            before.1 + rays.last().1.descents as nat,
            before.2 + rays.last().1.cell_steps as nat,
        )
    }
}

/// A batch's tally: its hits are the rays that hit, its totals are the sums over
/// the rays, and its maxima are the most of any one ray: no ray has more, and in
/// a batch with a ray some ray has as many.
pub proof fn law_tally_is_of_the_rays(rays: Seq<(bool, TraversalStats)>)
    requires
        counted(rays).0 <= u64::MAX,
        counted(rays).1 <= u64::MAX,
        counted(rays).2 <= u64::MAX,
    ensures
        tallied(rays).hits == counted(rays).0,
        tallied(rays).descents == counted(rays).1,
        tallied(rays).cell_steps == counted(rays).2,
        forall|i: int|
            0 <= i < rays.len() ==> (#[trigger] rays[i]).1.descents <= tallied(rays).max_descents
                && rays[i].1.cell_steps <= tallied(rays).max_cell_steps,
        rays.len() > 0 ==> (exists|i: int|
            0 <= i < rays.len() && (#[trigger] rays[i]).1.descents == tallied(rays).max_descents),
        rays.len() > 0 ==> (exists|i: int|
            0 <= i < rays.len() && (#[trigger] rays[i]).1.cell_steps == tallied(
                rays,
            ).max_cell_steps),
        rays.len() == 0 ==> tallied(rays).max_descents == 0 && tallied(rays).max_cell_steps == 0,
    decreases rays.len(),
{
    if rays.len() > 0 {
        let before = rays.drop_last();
        let last = rays.len() - 1;
        law_tally_is_of_the_rays(before);
        assert forall|i: int| 0 <= i < rays.len() implies (#[trigger] rays[i]).1.descents
            <= tallied(rays).max_descents && rays[i].1.cell_steps <= tallied(rays).max_cell_steps by {
            if i < last {
                assert(before[i] == rays[i]);
            }
        }
        assert(rays[last] == rays.last());
        if tallied(rays).max_descents != rays.last().1.descents {
            let i = choose|i: int|
                0 <= i < before.len() && (#[trigger] before[i]).1.descents == tallied(
                    before,
                ).max_descents;
            assert(rays[i] == before[i]);
        }
        if tallied(rays).max_cell_steps != rays.last().1.cell_steps {
            let i = choose|i: int|
                0 <= i < before.len() && (#[trigger] before[i]).1.cell_steps == tallied(
                    before,
                ).max_cell_steps;
            assert(rays[i] == before[i]);
        }
    }
}

/// A structure spills the cache exactly where it does not fit its four MiB.
pub proof fn law_spill_is_a_threshold(total: u64, r: bool)
    requires
        call_ensures(spills_l2, (total,), r),
    ensures
        r <==> !(total <= 4 * 1024 * 1024),
{
}

/// Cells get coarser up the levels: a voxel, a brick of eight, and four of the
/// level below from there on.
pub proof fn law_footprint_cells_grow(t: SparseTree, f: LevelFootprint, g: LevelFootprint, i: int)
    requires
        t.wf(),
        0 <= i <= t.resolution.levels(),
        is_footprint(t, f, i),
        is_footprint(t, g, i + 1),
    ensures
        i == 0 ==> f.cell_size == 1 && g.cell_size == 8,
        i > 0 ==> g.cell_size == 4 * f.cell_size,
        g.level == f.level + 1,
        g.cell_size > f.cell_size,
        f.bytes == f.count * (if i == 0 {
            0int
        } else if i == 1 {
            64
        } else {
            12
        }),
{
    vstd::arithmetic::power2::lemma2_to64();
    if i > 0 {
        let e = Level(i as u32).log2_cell();
        vstd::arithmetic::power2::lemma_pow2_adds(2, e);
        vstd::arithmetic::power2::lemma_pow2_pos(e);
    }
}

/// The generator's output mix loses nothing: no two states give one output, so
/// a run of `2⁶⁴` steps repeats none.
pub proof fn law_mix_keeps_apart(a: u64, b: u64)
    requires
        mix64(a) == mix64(b),
    ensures
        a == b,
{
    let m = 0x1_0000_0000_0000_0000int;
    let (p, q) = (a ^ (a >> 30), b ^ (b >> 30));
    let (s, t) = (p.wrapping_mul(0xBF58_476D_1CE4_E5B9), q.wrapping_mul(0xBF58_476D_1CE4_E5B9));
    let (u, v) = (s ^ (s >> 27), t ^ (t >> 27));
    let (x, y) = (u.wrapping_mul(0x94D0_49BB_1331_11EB), v.wrapping_mul(0x94D0_49BB_1331_11EB));
    assert((x ^ (x >> 31) == y ^ (y >> 31) ==> x == y) && (s ^ (s >> 27) == t ^ (t >> 27) ==> s
        == t) && (a ^ (a >> 30) == b ^ (b >> 30) ==> a == b)) by (bit_vector);
    lemma_unit_factor(u as int, v as int, 0x94D0_49BB_1331_11EB, 0x3196_42B2_D24D_8EC3, m);
    lemma_unit_factor(p as int, q as int, 0xBF58_476D_1CE4_E5B9, 0x96DE_1B17_3F11_9089, m);
}

/// A recorded ray counts as the batch's tally says.
pub proof fn law_record_adds_ray(t: &mut RayTally, hit: bool, stats: TraversalStats)
    requires
        old(t).hits < u64::MAX,
        old(t).descents + stats.descents <= u64::MAX,
        old(t).cell_steps + stats.cell_steps <= u64::MAX,
        call_ensures(RayTally::record, (t, hit, stats), ()),
    ensures
        *final(t) == old(t).recorded(hit, stats),
{
}

/// The generator steps its state by a fixed odd amount and gives the mix of the
/// state it goes to: from different states come different outputs, and the
/// state goes on the same whether the output is taken whole or as a coordinate.
pub proof fn law_generator_steps(
    a: &mut u64,
    b: &mut u64,
    c: &mut u64,
    n: u32,
    x: u64,
    y: u64,
    z: u32,
)
    requires
        n > 0,
        call_ensures(splitmix64, (a,), x),
        call_ensures(splitmix64, (b,), y),
        call_ensures(rng_coord, (c, n), z),
    ensures
        x == mix64(*final(a)),
        *final(a) == old(a).wrapping_add(0x9E37_79B9_7F4A_7C15),
        x == y <==> *old(a) == *old(b),
        *old(c) == *old(a) ==> *final(c) == *final(a) && z == x % (n as u64),
        z < n,
        *final(a) != *old(a),
{
    if x == y {
        law_mix_keeps_apart(*final(a), *final(b));
    }
}

/// The footprint lists every level once, from the coarsest down to the voxels,
/// and its bytes add up to the total.
pub proof fn law_footprint_lists_levels(
    t: SparseTree,
    levels: Vec<LevelFootprint>,
    list: &[LevelFootprint],
    total: u64,
    i: int,
)
    requires
        t.wf(),
        call_ensures(per_level_footprint, (&t,), levels),
        list@ == levels@,
        byte_sum(list@, list@.len() as int) <= u64::MAX,
        call_ensures(total_bytes, (list,), total),
        0 <= i < levels@.len(),
    ensures
        levels@.len() == t.resolution.levels() + 2,
        levels@[i].level == levels@.len() - 1 - i,
        levels@[i].count == cells_at(t, levels@[i].level as int),
        total == 12 * node_total(t.nodes@, t.nodes@.len() as int) + 64 * t.leaves@.len(),
{
    assert(is_footprint(t, levels@[i], t.resolution.levels() + 1 - i));
    law_total_is_nodes_and_leaves(t, levels@);
}

/// An empty batch has nothing counted.
pub proof fn law_empty_tally(t: RayTally)
    requires
        call_ensures(RayTally::default, (), t),
    ensures
        t == tallied(Seq::empty()),
        t.hits == 0 && t.descents == 0 && t.cell_steps == 0,
{
}

} // verus!
