//! Procedural occupancy fixtures with known properties.
//!
//! All are procedural (no `n³` allocation) so they work at any resolution. The
//! star is [`OctantFractal`], a scale-invariant fractal whose occupied count is
//! exactly `|keep|` to the number of bit levels.

use crate::bits::{bit, bits_of, lemma_ones_agree, lemma_unit_factor, lemma_xor_keeps_apart, ones};
use crate::coord::VoxelCoord;
use crate::morton::{lemma_morton_step, morton};
use crate::occupancy::OccupancyField;
use crate::resolution::Resolution;
use vstd::prelude::*;

verus! {

/// Empty everywhere. The miss-only fixture.
#[derive(Debug, Clone, Copy)]
pub struct Empty {
    /// Grid resolution.
    pub resolution: Resolution,
}

impl OccupancyField for Empty {
    open spec fn grid(&self) -> Resolution {
        self.resolution
    }

    open spec fn occ(&self, c: VoxelCoord) -> bool {
        false
    }

    open spec fn valid(&self) -> bool {
        true
    }

    fn resolution(&self) -> (r: Resolution) {
        let n: u32 = self.resolution.voxels_per_axis();
        self.resolution
    }

    fn is_occupied(&self, _c: VoxelCoord) -> (r: bool) {
        false
    }
}

/// Solid everywhere in bounds. The first in-bounds voxel a ray enters is always
/// a hit.
#[derive(Debug, Clone, Copy)]
pub struct Solid {
    /// Grid resolution.
    pub resolution: Resolution,
}

impl OccupancyField for Solid {
    open spec fn grid(&self) -> Resolution {
        self.resolution
    }

    open spec fn occ(&self, c: VoxelCoord) -> bool {
        c.within(self.resolution)
    }

    open spec fn valid(&self) -> bool {
        true
    }

    fn resolution(&self) -> (r: Resolution) {
        let n: u32 = self.resolution.voxels_per_axis();
        self.resolution
    }

    fn is_occupied(&self, c: VoxelCoord) -> (r: bool) {
        c.in_bounds(self.resolution)
    }
}

/// A single occupied voxel. Pins exact-hit behavior.
#[derive(Debug, Clone, Copy)]
pub struct SingleVoxel {
    /// Grid resolution.
    pub resolution: Resolution,
    /// The one occupied voxel.
    pub voxel: VoxelCoord,
}

impl OccupancyField for SingleVoxel {
    open spec fn grid(&self) -> Resolution {
        self.resolution
    }

    open spec fn occ(&self, c: VoxelCoord) -> bool {
        c == self.voxel && c.within(self.resolution)
    }

    open spec fn valid(&self) -> bool {
        true
    }

    fn resolution(&self) -> (r: Resolution) {
        let n: u32 = self.resolution.voxels_per_axis();
        self.resolution
    }

    fn is_occupied(&self, c: VoxelCoord) -> (r: bool) {
        c == self.voxel && c.in_bounds(self.resolution)
    }
}

/// 3-D checkerboard: occupied where `x + y + z` is even. Adversarial for
/// traversal: dense structure, frequent near-grazing hits.
#[derive(Debug, Clone, Copy)]
pub struct Checkerboard {
    /// Grid resolution.
    pub resolution: Resolution,
}

impl OccupancyField for Checkerboard {
    open spec fn grid(&self) -> Resolution {
        self.resolution
    }

    open spec fn occ(&self, c: VoxelCoord) -> bool {
        c.within(self.resolution) && (c.x + c.y + c.z) % 2 == 0
    }

    open spec fn valid(&self) -> bool {
        true
    }

    fn resolution(&self) -> (r: Resolution) {
        let n: u32 = self.resolution.voxels_per_axis();
        self.resolution
    }

    fn is_occupied(&self, c: VoxelCoord) -> (r: bool) {
        c.in_bounds(self.resolution) && (c.x % 2 + c.y % 2 + c.z % 2) % 2 == 0
    }
}

/// A scale-invariant octant fractal on the `2³` subdivision.
///
/// A voxel is occupied iff, at **every** bit level `b`, its octant index
/// `bit_b(x) | bit_b(y)<<1 | bit_b(z)<<2` is a member of the `keep` mask (an
/// 8-bit set over octants `0..8`). Halving the box size multiplies the occupied
/// count by `|keep|`.
///
/// `keep = 0x69` ({0,3,5,6}, the even-parity octants) is a Sierpinski
/// tetrahedron.
#[derive(Debug, Clone, Copy)]
pub struct OctantFractal {
    /// Grid resolution.
    pub resolution: Resolution,
    /// Bitmask over the 8 octants; bit `i` set ⇒ octant `i` is kept.
    pub keep: u8,
}

/// The octant of a voxel at bit level `b`.
pub open spec fn octant(c: VoxelCoord, b: int) -> int {
    (if bit(c.x as u64, b) {
        1int
    } else {
        0
    }) + (if bit(c.y as u64, b) {
        2int
    } else {
        0
    }) + (if bit(c.z as u64, b) {
        4int
    } else {
        0
    })
}

impl OctantFractal {
    /// Sierpinski tetrahedron: keep the four even-parity octants.
    #[must_use]
    pub fn sierpinski_tetrahedron(resolution: Resolution) -> (r: Self)
        ensures
            r.resolution == resolution,
            r.keep == 0x69,
    {
        // octants 0 (000), 3 (011), 5 (101), 6 (110): even popcount.
        Self { resolution, keep: 0b0110_1001 }
    }

    /// A sparse "Cantor dust": keep two opposite-corner octants.
    #[must_use]
    pub fn cantor_dust(resolution: Resolution) -> (r: Self)
        ensures
            r.resolution == resolution,
            r.keep == 0x81,
    {
        // octants 0 (000) and 7 (111).
        Self { resolution, keep: 0b1000_0001 }
    }
}

impl OccupancyField for OctantFractal {
    open spec fn grid(&self) -> Resolution {
        self.resolution
    }

    open spec fn occ(&self, c: VoxelCoord) -> bool {
        c.within(self.resolution) && forall|b: int|
            0 <= b < 3 + 2 * self.resolution.levels() ==> bit(
                self.keep as u64,
                #[trigger] octant(c, b),
            )
    }

    open spec fn valid(&self) -> bool {
        true
    }

    fn resolution(&self) -> (r: Resolution) {
        let n: u32 = self.resolution.voxels_per_axis();
        self.resolution
    }

    fn is_occupied(&self, c: VoxelCoord) -> (r: bool) {
        if !c.in_bounds(self.resolution) {
            return false;
        }
        let levels: u32 = self.resolution.axis_bits();
        let k: u32 = self.resolution.internal_levels();
        let mut b: u32 = 0;
        while b < levels
            invariant
                b <= levels <= 31,
                levels == 3 + 2 * self.resolution.levels(),
                forall|a: int|
                    0 <= a < b ==> bit(self.keep as u64, #[trigger] octant(c, a)),
            decreases levels - b,
        {
            let oct: u32 = ((c.x >> b) & 1) | (((c.y >> b) & 1) << 1) | (((c.z >> b) & 1) << 2);
            proof {
                lemma_octant(c, b);
                let keep = self.keep;
                assert(oct < 8 && ((keep >> oct) & 1 == 0 <==> !(((keep as u64) >> (oct as u64)) & 1
                    == 1))) by (bit_vector)
                    requires
                        oct < 8,
                ;
            }
            if (self.keep >> oct) & 1 == 0 {
                assert(!bit(self.keep as u64, octant(c, b as int)));
                return false;
            }
            b = b + 1;
        }
        true
    }
}

proof fn lemma_octant(c: VoxelCoord, b: u32)
    requires
        b < 32,
    ensures
        ((c.x >> b) & 1) | (((c.y >> b) & 1) << 1) | (((c.z >> b) & 1) << 2) == octant(c, b as int),
        octant(c, b as int) < 8,
{
    let (x, y, z) = (c.x, c.y, c.z);
    let w = b as u64;
    assert(((x >> b) & 1) | (((y >> b) & 1) << 1) | (((z >> b) & 1) << 2) == (if ((x as u64) >> w)
        & 1u64 == 1u64 {
        1u32
    } else {
        0u32
    }) + (if ((y as u64) >> w) & 1u64 == 1u64 {
        2u32
    } else {
        0u32
    }) + (if ((z as u64) >> w) & 1u64 == 1u64 {
        4u32
    } else {
        0u32
    })) by (bit_vector)
        requires
            b < 32,
            w == b as u64,
    ;
}

/// `8^n`.
pub open spec fn pow8(n: nat) -> nat
    decreases n,
{
    if n == 0 {
        1
    } else {
        8 * pow8((n - 1) as nat)
    }
}

/// `a^n`.
pub open spec fn power(a: nat, n: nat) -> nat
    decreases n,
{
    if n == 0 {
        1
    } else {
        a * power(a, (n - 1) as nat)
    }
}

/// The lowest `levels` base-eight digits of a Morton code are all in `keep`.
pub open spec fn kept(keep: u8, code: nat, levels: nat) -> bool
    decreases levels,
{
    levels == 0 || (bit(keep as u64, (code % 8) as int) && kept(
        keep,
        code / 8,
        (levels - 1) as nat,
    ))
}

/// Which of the `8^levels` Morton codes of a grid the fractal keeps.
pub open spec fn kept_codes(keep: u8, levels: nat) -> Seq<bool> {
    Seq::new(pow8(levels), |m: int| kept(keep, m as nat, levels))
}

/// The octants of a voxel are the base-eight digits of its Morton code: the
/// fractal keeps a voxel exactly where it keeps the code.
pub proof fn law_fractal_by_code(f: OctantFractal, c: VoxelCoord)
    requires
        f.resolution.wf(),
        c.within(f.resolution),
    ensures
        f.occ(c) <==> kept(
            f.keep,
            morton(c.x as nat, c.y as nat, c.z as nat),
            (3 + 2 * f.resolution.levels()) as nat,
        ),
{
    lemma_kept_by_octants(f.keep, c, (3 + 2 * f.resolution.levels()) as nat);
}

proof fn lemma_kept_by_octants(keep: u8, c: VoxelCoord, levels: nat)
    requires
        levels <= 32,
    ensures
        kept(keep, morton(c.x as nat, c.y as nat, c.z as nat), levels) <==> forall|b: int|
            0 <= b < levels ==> bit(keep as u64, #[trigger] octant(c, b)),
    decreases levels,
{
    if levels > 0 {
        let h = VoxelCoord { x: c.x / 2, y: c.y / 2, z: c.z / 2 };
        lemma_morton_step(c.x as nat, c.y as nat, c.z as nat);
        lemma_kept_by_octants(keep, h, (levels - 1) as nat);
        lemma_axis_bits(c.x, 0);
        lemma_axis_bits(c.y, 0);
        lemma_axis_bits(c.z, 0);
        let ghost all_h = forall|b: int|
            0 <= b < levels - 1 ==> bit(keep as u64, #[trigger] octant(h, b));
        assert forall|b: int| 0 <= b < levels - 1 implies octant(c, b + 1) == #[trigger] octant(
            h,
            b,
        ) by {
            lemma_axis_bits(c.x, b as u32);
            lemma_axis_bits(c.y, b as u32);
            lemma_axis_bits(c.z, b as u32);
        }
        assert(octant(c, 0) == morton(c.x as nat, c.y as nat, c.z as nat) % 8);
        if forall|b: int| 0 <= b < levels ==> bit(keep as u64, #[trigger] octant(c, b)) {
            assert forall|b: int| 0 <= b < levels - 1 implies bit(
                keep as u64,
                #[trigger] octant(h, b),
            ) by {
                assert(bit(keep as u64, octant(c, b + 1)));
            }
        }
        if all_h && bit(keep as u64, octant(c, 0)) {
            assert forall|b: int| 0 <= b < levels implies bit(
                keep as u64,
                #[trigger] octant(c, b),
            ) by {
                if b > 0 {
                    assert(octant(c, b - 1 + 1) == octant(h, b - 1));
                }
            }
        }
    }
}

proof fn lemma_axis_bits(v: u32, b: u32)
    requires
        b < 32,
    ensures
        v % 2 == if bit(v as u64, 0) {
            1u32
        } else {
            0u32
        },
        bit((v / 2) as u64, b as int) == bit(v as u64, b + 1),
{
    let (w, w1) = (b as u64, (b + 1) as u64);
    assert(v % 2 == (if ((v as u64) >> 0u64) & 1u64 == 1u64 {
        1u32
    } else {
        0u32
    }) && (((((v / 2) as u64) >> w) & 1u64 == 1u64) <==> (((v as u64) >> w1) & 1u64 == 1u64)))
        by (bit_vector)
        requires
            b < 32,
            w == b as u64,
            w1 == w + 1,
    ;
}

/// The number of kept codes, and with it of occupied voxels, is `|keep|` to
/// the number of bit levels: one more level multiplies it by `|keep|`.
pub proof fn law_fractal_count(keep: u8, levels: nat)
    ensures
        ones(kept_codes(keep, levels), pow8(levels) as int) == power(
            ones(bits_of(keep as u64), 8),
            levels,
        ),
    decreases levels,
{
    let s = kept_codes(keep, levels);
    if levels == 0 {
        assert(pow8(0) == 1);
        assert(s[0]);
        assert(ones(s, 1) == ones(s, 0) + 1);
    } else {
        let below = (levels - 1) as nat;
        law_fractal_count(keep, below);
        let t = kept_codes(keep, below);
        lemma_blocks(keep, levels, pow8(below) as int);
        let d = ones(bits_of(keep as u64), 8);
        assert(d * ones(t, pow8(below) as int) == d * power(d, below));
    }
}

/// Over the first `q` blocks of eight codes the count is `|keep|` times the
/// count over the first `q` codes one level down.
proof fn lemma_blocks(keep: u8, levels: nat, q: int)
    requires
        levels > 0,
        0 <= q <= pow8((levels - 1) as nat),
    ensures
        ones(kept_codes(keep, levels), 8 * q) == ones(bits_of(keep as u64), 8) * ones(
            kept_codes(keep, (levels - 1) as nat),
            q,
        ),
    decreases q,
{
    let s = kept_codes(keep, levels);
    let t = kept_codes(keep, (levels - 1) as nat);
    let k = bits_of(keep as u64);
    if q == 0 {
        assert(ones(k, 8) * 0 == 0) by (nonlinear_arith);
    } else {
        lemma_blocks(keep, levels, q - 1);
        let base = 8 * (q - 1);
        assert forall|i: int| 0 <= i < 8 implies #[trigger] s[base + i] == (k[i] && t[q - 1]) by {
            let code = (base + i) as nat;
            assert(code % 8 == i && code / 8 == q - 1);
            assert(s[base + i] == kept(keep, code, levels));
        }
        let blank = Seq::new(8, |i: int| false);
        let block = Seq::new(8, |i: int| k[i] && t[q - 1]);
        crate::bits::lemma_ones_split(s, block, base, 8);
        if t[q - 1] {
            lemma_ones_agree(block, k, 8);
            assert(ones(k, 8) * (ones(t, q - 1) + 1) == ones(k, 8) * ones(t, q - 1) + ones(k, 8))
                by (nonlinear_arith);
        } else {
            crate::bits::lemma_ones_zero(block, 8);
        }
        assert(ones(t, q) == ones(t, q - 1) + if t[q - 1] {
            1nat
        } else {
            0nat
        });
    }
}

/// A 3-D wireframe lattice: thin wires along the edges of a `period`-spaced
/// grid. A wire-bearing brick exists almost everywhere, so rays *descend* into
/// it, but the wire is only `thickness` voxels, so they usually *miss* and
/// *ascend*.
#[derive(Debug, Clone, Copy)]
pub struct WireLattice {
    /// Grid resolution.
    pub resolution: Resolution,
    /// Spacing of the wire grid in voxels (power-of-two recommended).
    pub period: u32,
    /// Wire half-extent in voxels.
    pub thickness: u32,
}

impl WireLattice {
    /// A lattice with `period = 16` (two bricks) and 1-voxel-thick wires.
    #[must_use]
    pub fn new(resolution: Resolution) -> (r: Self)
        ensures
            r == (WireLattice { resolution, period: 16, thickness: 1 }),
            r.valid(),
    {
        Self { resolution, period: 16, thickness: 1 }
    }

    /// The axis coordinate is near a grid line.
    pub open spec fn on_line(self, v: u32) -> bool {
        v % self.period < self.thickness
    }
}

impl OccupancyField for WireLattice {
    open spec fn grid(&self) -> Resolution {
        self.resolution
    }

    /// At least two axes are on a grid line (the 12 cube edges).
    open spec fn occ(&self, c: VoxelCoord) -> bool {
        c.within(self.resolution) && ((self.on_line(c.x) && self.on_line(c.y)) || (self.on_line(
            c.x,
        ) && self.on_line(c.z)) || (self.on_line(c.y) && self.on_line(c.z)))
    }

    open spec fn valid(&self) -> bool {
        self.period != 0
    }

    fn resolution(&self) -> (r: Resolution) {
        let n: u32 = self.resolution.voxels_per_axis();
        self.resolution
    }

    fn is_occupied(&self, c: VoxelCoord) -> (r: bool) {
        if !c.in_bounds(self.resolution) {
            return false;
        }
        let nx: bool = c.x % self.period < self.thickness;
        let ny: bool = c.y % self.period < self.thickness;
        let nz: bool = c.z % self.period < self.thickness;
        (nx && ny) || (nx && nz) || (ny && nz)
    }
}

/// Uniform sparse "dust": pseudo-random voxels at about `1/density` occupancy.
/// Adjacent rays hit scattered voxels at unrelated depths. Deterministic via a
/// hash, so builds are reproducible.
#[derive(Debug, Clone, Copy)]
pub struct Dust {
    /// Grid resolution.
    pub resolution: Resolution,
    /// Inverse density: a voxel is occupied iff `hash % density == 0`.
    pub density: u32,
}

impl Dust {
    /// Dust at about `1/4096` occupancy: sparse enough to fit at `512³`, dense
    /// enough that most camera rays diverge.
    #[must_use]
    pub fn new(resolution: Resolution) -> (r: Self)
        ensures
            r == (Dust { resolution, density: 4096 }),
    {
        Self { resolution, density: 4096 }
    }
}

/// The finishing mix of the integer hashes.
pub open spec fn finish(h: u32) -> u32 {
    let a = h ^ (h >> 16);
    let b = a.wrapping_mul(0x7feb_352d);
    b ^ (b >> 15)
}

/// A 3-D integer hash: three odd multipliers, combined and mixed.
pub open spec fn spec_hash3(x: u32, y: u32, z: u32) -> u32 {
    finish(
        x.wrapping_mul(0x8da6_b343) ^ y.wrapping_mul(0xd816_3841) ^ z.wrapping_mul(0xcb1a_b31f),
    )
}

/// A deterministic, reasonably-uniform 3-D integer hash.
pub fn hash3(x: u32, y: u32, z: u32) -> (r: u32)
    ensures
        r == spec_hash3(x, y, z),
{
    let mut h: u32 = x.wrapping_mul(0x8da6_b343) ^ y.wrapping_mul(0xd816_3841) ^ z.wrapping_mul(
        0xcb1a_b31f,
    );
    h = h ^ (h >> 16);
    h = h.wrapping_mul(0x7feb_352d);
    h = h ^ (h >> 15);
    h
}

impl OccupancyField for Dust {
    open spec fn grid(&self) -> Resolution {
        self.resolution
    }

    /// A multiple of zero is zero.
    open spec fn occ(&self, c: VoxelCoord) -> bool {
        c.within(self.resolution) && if self.density == 0 {
            spec_hash3(c.x, c.y, c.z) == 0
        } else {
            spec_hash3(c.x, c.y, c.z) % self.density == 0
        }
    }

    open spec fn valid(&self) -> bool {
        true
    }

    fn resolution(&self) -> (r: Resolution) {
        let n: u32 = self.resolution.voxels_per_axis();
        self.resolution
    }

    fn is_occupied(&self, c: VoxelCoord) -> (r: bool) {
        c.in_bounds(self.resolution) && hash3(c.x, c.y, c.z).is_multiple_of(self.density)
    }
}

/// `b` is one step from `a` along one axis, in either direction.
pub open spec fn one_apart(a: VoxelCoord, b: VoxelCoord) -> bool {
    ||| a.y == b.y && a.z == b.z && (a.x + 1 == b.x || b.x + 1 == a.x)
    ||| a.x == b.x && a.z == b.z && (a.y + 1 == b.y || b.y + 1 == a.y)
    ||| a.x == b.x && a.y == b.y && (a.z + 1 == b.z || b.z + 1 == a.z)
}

/// A checkerboard alternates along every axis: of two voxels one step apart
/// exactly one is occupied, and the one at the origin is. Nothing is occupied
/// outside the grid.
pub proof fn law_checkerboard_alternates(f: Checkerboard, a: VoxelCoord, b: VoxelCoord)
    requires
        f.resolution.wf(),
        a.within(f.resolution),
        b.within(f.resolution),
        one_apart(a, b),
    ensures
        f.occ(a) != f.occ(b),
        f.occ(VoxelCoord { x: 0, y: 0, z: 0 }),
        forall|c: VoxelCoord| #[trigger] f.occ(c) ==> c.within(f.resolution),
{
    crate::resolution::lemma_pow4_increases(0, f.resolution.levels() as nat);
}

/// The three plain fixtures, by how many voxels of the grid they hold: none, all
/// of them, and one: the given voxel where the grid has it.
pub proof fn law_plain_fixtures_hold(
    e: Empty,
    s: Solid,
    o: SingleVoxel,
    a: VoxelCoord,
    b: VoxelCoord,
)
    ensures
        !e.occ(a),
        s.occ(a) <==> a.within(s.resolution),
        o.occ(a) && o.occ(b) ==> a == b,
        o.voxel.within(o.resolution) <==> o.occ(o.voxel),
        o.occ(a) ==> a.within(o.resolution),
{
}

/// The voxel with its first two, or its last two, coordinates exchanged.
pub open spec fn swapped(c: VoxelCoord, first: bool) -> VoxelCoord {
    if first {
        VoxelCoord { x: c.y, y: c.x, z: c.z }
    } else {
        VoxelCoord { x: c.x, y: c.z, z: c.y }
    }
}

/// The wire lattice repeats: a voxel and the one a period further along any axis
/// are both occupied or both free. It looks the same along every axis.
pub proof fn law_lattice_repeats(f: WireLattice, c: VoxelCoord, first: bool)
    requires
        f.valid(),
        f.resolution.wf(),
        c.within(f.resolution),
    ensures
        c.x + f.period < f.resolution.side() ==> f.occ(c) == f.occ(
            VoxelCoord { x: (c.x + f.period) as u32, ..c },
        ),
        c.y + f.period < f.resolution.side() ==> f.occ(c) == f.occ(
            VoxelCoord { y: (c.y + f.period) as u32, ..c },
        ),
        c.z + f.period < f.resolution.side() ==> f.occ(c) == f.occ(
            VoxelCoord { z: (c.z + f.period) as u32, ..c },
        ),
        f.occ(c) == f.occ(swapped(c, first)),
{
    let p = f.period as int;
    vstd::arithmetic::div_mod::lemma_mod_add_multiples_vanish(c.x as int, p);
    vstd::arithmetic::div_mod::lemma_mod_add_multiples_vanish(c.y as int, p);
    vstd::arithmetic::div_mod::lemma_mod_add_multiples_vanish(c.z as int, p);
}

/// The lattice is wires, no planes and no lone voxels. Through every grid point
/// runs a wire along each axis, `thickness` voxels wide across it; a voxel at
/// least `thickness` off the grid lines on two axes is free. A wire may be as
/// long as the grid: where a voxel is on lines in two axes, the third coordinate
/// does not matter.
pub proof fn law_lattice_is_wires(f: WireLattice, c: VoxelCoord, t: u32)
    requires
        f.valid(),
        f.resolution.wf(),
        c.within(f.resolution),
        t < f.resolution.side(),
    ensures
        c.x < f.thickness && c.x < f.period && c.y < f.thickness && c.y < f.period ==> f.occ(
            VoxelCoord { z: t, ..c },
        ),
        c.x < f.thickness && c.x < f.period && c.z < f.thickness && c.z < f.period ==> f.occ(
            VoxelCoord { y: t, ..c },
        ),
        c.y < f.thickness && c.y < f.period && c.z < f.thickness && c.z < f.period ==> f.occ(
            VoxelCoord { x: t, ..c },
        ),
        f.thickness <= c.x < f.period && f.thickness <= c.y < f.period ==> !f.occ(
            VoxelCoord { z: t, ..c },
        ),
        f.thickness <= c.x < f.period && f.thickness <= c.z < f.period ==> !f.occ(
            VoxelCoord { y: t, ..c },
        ),
        f.thickness <= c.y < f.period && f.thickness <= c.z < f.period ==> !f.occ(
            VoxelCoord { x: t, ..c },
        ),
{
    let p = f.period as int;
    if c.x < p {
        vstd::arithmetic::div_mod::lemma_small_mod(c.x as nat, p as nat);
    }
    if c.y < p {
        vstd::arithmetic::div_mod::lemma_small_mod(c.y as nat, p as nat);
    }
    if c.z < p {
        vstd::arithmetic::div_mod::lemma_small_mod(c.z as nat, p as nat);
    }
}

/// Dust thins out: what is occupied at a multiple of a density is occupied at
/// the density, at density one every voxel of the grid is, and nothing is
/// outside it. Voxels with the same hash are both occupied or both free.
pub proof fn law_dust_thins(f: Dust, g: Dust, times: u32, c: VoxelCoord, d: VoxelCoord)
    requires
        f.resolution == g.resolution,
        f.density > 0,
        g.density == f.density * times,
        c.within(f.resolution),
        d.within(f.resolution),
    ensures
        g.occ(c) ==> f.occ(c),
        f.density == 1 ==> f.occ(c),
        spec_hash3(c.x, c.y, c.z) == spec_hash3(d.x, d.y, d.z) ==> f.occ(c) == f.occ(d),
        forall|v: VoxelCoord| #[trigger] f.occ(v) ==> v.within(f.resolution),
{
    let h = spec_hash3(c.x, c.y, c.z) as int;
    let p = f.density as int;
    let k = times as int;
    if g.occ(c) {
        if g.density == 0 {
            assert(h == 0);
            assert(0int % p == 0) by (nonlinear_arith)
                requires
                    p > 0,
            ;
        } else {
            let q = h / (p * k);
            vstd::arithmetic::div_mod::lemma_fundamental_div_mod(h, p * k);
            assert(h == (k * q) * p) by (nonlinear_arith)
                requires
                    h == (p * k) * q,
            ;
            vstd::arithmetic::div_mod::lemma_mod_multiples_basic(k * q, p);
        }
    }
}

/// The finishing mix loses nothing: two words with the same mix are one.
pub proof fn law_finish_keeps_apart(a: u32, b: u32)
    requires
        finish(a) == finish(b),
    ensures
        a == b,
{
    let (p, q) = (a ^ (a >> 16), b ^ (b >> 16));
    let (s, t) = (p.wrapping_mul(0x7feb_352d), q.wrapping_mul(0x7feb_352d));
    assert((s ^ (s >> 15) == t ^ (t >> 15) ==> s == t) && (a ^ (a >> 16) == b ^ (b >> 16) ==> a
        == b)) by (bit_vector);
    lemma_unit_factor(p as int, q as int, 0x7feb_352d, 0x1d69_e2a5, 0x1_0000_0000);
}

/// The hash tells neighbours apart, however far: of voxels on one line along an
/// axis no two have the same hash.
pub proof fn law_hash_keeps_lines_apart(x: u32, y: u32, z: u32, w: u32)
    ensures
        spec_hash3(x, y, z) == spec_hash3(w, y, z) ==> x == w,
        spec_hash3(x, y, z) == spec_hash3(x, w, z) ==> y == w,
        spec_hash3(x, y, z) == spec_hash3(x, y, w) ==> z == w,
        spec_hash3(0, 0, 0) == 0,
{
    let m = 0x1_0000_0000int;
    let (p, q, r) = (
        x.wrapping_mul(0x8da6_b343),
        y.wrapping_mul(0xd816_3841),
        z.wrapping_mul(0xcb1a_b31f),
    );
    let (i, j, k) = (
        w.wrapping_mul(0x8da6_b343),
        w.wrapping_mul(0xd816_3841),
        w.wrapping_mul(0xcb1a_b31f),
    );
    if spec_hash3(x, y, z) == spec_hash3(w, y, z) {
        law_finish_keeps_apart(p ^ q ^ r, i ^ q ^ r);
        lemma_xor_keeps_apart(p ^ q, i ^ q, r);
        lemma_xor_keeps_apart(p, i, q);
        lemma_unit_factor(x as int, w as int, 0x8da6_b343, 0xb19b_f16b, m);
    }
    if spec_hash3(x, y, z) == spec_hash3(x, w, z) {
        law_finish_keeps_apart(p ^ q ^ r, p ^ j ^ r);
        lemma_xor_keeps_apart(p ^ q, p ^ j, r);
        lemma_xor_keeps_apart(q, j, p);
        lemma_unit_factor(y as int, w as int, 0xd816_3841, 0xc5c1_d7c1, m);
    }
    if spec_hash3(x, y, z) == spec_hash3(x, y, w) {
        law_finish_keeps_apart(p ^ q ^ r, p ^ q ^ k);
        lemma_xor_keeps_apart(r, k, p ^ q);
        lemma_unit_factor(z as int, w as int, 0xcb1a_b31f, 0x4a3b_08df, m);
    }
    assert(0u32 ^ 0u32 ^ 0u32 == 0u32 && 0u32 ^ (0u32 >> 16u32) == 0u32 && 0u32 ^ (0u32 >> 15u32)
        == 0u32) by (bit_vector);
}

/// The Sierpinski tetrahedron keeps the octants of even parity: those where an
/// even number of the three axes is on the high side. The Cantor dust keeps the
/// two where the axes agree.
pub proof fn law_named_fractals_keep(
    resolution: Resolution,
    s: OctantFractal,
    d: OctantFractal,
    x: int,
    y: int,
    z: int,
)
    requires
        call_ensures(OctantFractal::sierpinski_tetrahedron, (resolution,), s),
        call_ensures(OctantFractal::cantor_dust, (resolution,), d),
        0 <= x <= 1,
        0 <= y <= 1,
        0 <= z <= 1,
    ensures
        s.resolution == resolution && d.resolution == resolution,
        bit(s.keep as u64, x + 2 * y + 4 * z) <==> (x + y + z) % 2 == 0,
        bit(d.keep as u64, x + 2 * y + 4 * z) <==> x == y && y == z,
{
    let k = (x + 2 * y + 4 * z) as u64;
    let (a, b, c) = (x as u64, y as u64, z as u64);
    assert(((((0x69u64 >> k) & 1u64) == 1u64) <==> (a + b + c) % 2 == 0) && ((((0x81u64 >> k) & 1u64)
        == 1u64) <==> (a == b && b == c))) by (bit_vector)
        requires
            a <= 1,
            b <= 1,
            c <= 1,
            k == a + 2 * b + 4 * c,
    ;
}

/// The octant of a voxel at a bit level says, axis by axis, which half it is in:
/// it is below eight, and exchanging axes exchanges their bits.
pub proof fn law_octant_is_per_axis(c: VoxelCoord, b: int)
    ensures
        0 <= octant(c, b) < 8,
        octant(c, b) % 2 == 1 <==> bit(c.x as u64, b),
        octant(c, b) / 2 % 2 == 1 <==> bit(c.y as u64, b),
        octant(c, b) / 4 == 1 <==> bit(c.z as u64, b),
{
}

/// The default lattice has wires two bricks apart, one voxel thick: of sixteen
/// voxels in a row along a wire-free line across wires just one is occupied.
pub proof fn law_default_lattice(resolution: Resolution, f: WireLattice, v: u32)
    requires
        call_ensures(WireLattice::new, (resolution,), f),
    ensures
        f.resolution == resolution,
        f.valid(),
        f.on_line(v) <==> v % 16 == 0,
{
}

/// Dust is where the density divides the hash: a hash that is a multiple of the
/// density is dust, zero with any density, and nothing else is.
pub proof fn law_dust_is_multiples(f: Dust, c: VoxelCoord, k: int)
    requires
        c.within(f.resolution),
    ensures
        spec_hash3(c.x, c.y, c.z) == k * f.density ==> f.occ(c),
        f.occ(c) ==> exists|q: int| spec_hash3(c.x, c.y, c.z) == #[trigger] (q * f.density),
{
    let h = spec_hash3(c.x, c.y, c.z) as int;
    let d = f.density as int;
    if h == k * d {
        if d > 0 {
            vstd::arithmetic::div_mod::lemma_mod_multiples_basic(k, d);
        } else {
            assert(k * d == 0) by (nonlinear_arith)
                requires
                    d == 0,
            ;
        }
    }
    if f.occ(c) {
        if d > 0 {
            vstd::arithmetic::div_mod::lemma_fundamental_div_mod(h, d);
            assert(d * (h / d) == (h / d) * d) by (nonlinear_arith);
            assert(h == (h / d) * f.density);
        } else {
            assert(h == 0 * f.density) by (nonlinear_arith)
                requires
                    h == 0,
            ;
        }
    }
}

} // verus!
