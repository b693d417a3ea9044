//! The `8³` bitmask leaf brick.
//!
//! A leaf holds 512 occupancy bits, one per voxel of an `8³` brick, stored in
//! intra-brick Morton order. A set bit is the terminal surface: an occupied
//! brick is *not* itself a hit, only a set voxel inside it is. Internally
//! 8 × `u64`; the GPU reads the bit-identical `16 × u32` view.
//!
//! Each leaf also has a packed [`LeafBounds`] (the bounding box of its set
//! voxels), which drives the per-brick early-skip: a ray whose chord misses the
//! box skips the `8³` walk.

use crate::bits::{bit, bits_of, lemma_bit_ops, lemma_bits_determine, lemma_halves, lemma_ones_monotone, lemma_ones_split, lemma_ones_zero, lemma_parts, lemma_zero_bit, ones};
use crate::coord::VoxelCoord;
use crate::morton::{self, law_morton_injective, lemma_local_of_decode, local_index, morton};
use crate::node::lemma_tail_clear;
use vstd::arithmetic::div_mod::lemma_fundamental_div_mod_converse;
use vstd::prelude::*;

verus! {

/// An `8³` leaf brick: 512 occupancy bits in intra-brick Morton order.
#[derive(Debug, Clone, Copy, PartialEq, Eq)]
pub struct LeafBrick {
    /// 512 bits, `bits[i>>6] & (1 << (i & 63))` for Morton index `i`.
    bits: [u64; 8],
}

/// The axis-aligned bounding box of a brick's set voxels, in local `0..8`
/// coordinates (inclusive `min`/`max`). The basis for the per-brick early-skip:
/// a ray whose chord through the brick misses this box cannot hit any voxel in
/// it.
///
/// Packs into one `u32` (`6 × 3` bits).
#[derive(Debug, Clone, Copy, PartialEq, Eq)]
pub struct LeafBounds {
    /// Inclusive lower corner of the occupied region (each axis `0..8`).
    pub min: [u32; 3],
    /// Inclusive upper corner of the occupied region (each axis `0..8`).
    pub max: [u32; 3],
}

/// Above this many set voxels the box is reported as the whole brick.
pub const BOUNDS_SCAN_LIMIT: u32 = 64;

impl View for LeafBrick {
    type V = Seq<bool>;

    /// Occupancy by Morton index.
    closed spec fn view(&self) -> Seq<bool> {
        Seq::new(512, |m: int| bit(self.bits[m / 64], m % 64))
    }
}

impl LeafBounds {
    /// A spare flag bit in the packed word, **above** the bounds fields (which
    /// use bits 0..18): "this leaf contains a semi-transparent voxel".
    /// [`unpack`](Self::unpack) reads only bits 0..18, so the flag never
    /// disturbs the bounds.
    pub const TRANSPARENCY_BIT: u32 = 0x4_0000;

    /// The packed word as a number: six octal digits.
    pub open spec fn packed(self) -> int {
        self.min[0] % 8 + 8 * (self.min[1] % 8) + 64 * (self.min[2] % 8) + 512 * (self.max[0] % 8)
            + 4096 * (self.max[1] % 8) + 32768 * (self.max[2] % 8)
    }

    /// Every field is a brick-local coordinate.
    pub open spec fn in_range(self) -> bool {
        forall|a: int| 0 <= a < 3 ==> #[trigger] self.min[a] < 8 && self.max[a] < 8
    }

    /// The box is the whole brick.
    pub open spec fn is_full(self) -> bool {
        self.min@ == seq![0u32, 0, 0] && self.max@ == seq![7u32, 7, 7]
    }

    /// The whole brick: the conservative bound (always descend). Used for an
    /// empty brick.
    #[must_use]
    pub fn full() -> (r: LeafBounds)
        ensures
            r.is_full(),
            r.in_range(),
    {
        LeafBounds { min: [0, 0, 0], max: [7, 7, 7] }
    }

    /// Packs the bounds into one `u32`: `min.{x,y,z}` in bits `0,3,6` and
    /// `max.{x,y,z}` in bits `9,12,15`.
    ///
    /// Each field is **masked to 3 bits** so a field `>= 8` cannot bleed into a
    /// neighbouring field or into [`TRANSPARENCY_BIT`](Self::TRANSPARENCY_BIT).
    #[must_use]
    pub fn pack(self) -> (r: u32)
        ensures
            r == self.packed(),
            r < Self::TRANSPARENCY_BIT,
    {
        let (a, b, c) = (self.min[0], self.min[1], self.min[2]);
        let (d, e, f) = (self.max[0], self.max[1], self.max[2]);
        assert((a & 7) | ((b & 7) << 3) | ((c & 7) << 6) | ((d & 7) << 9) | ((e & 7) << 12) | ((f
            & 7) << 15) == a % 8 + 8 * (b % 8) + 64 * (c % 8) + 512 * (d % 8) + 4096 * (e % 8)
            + 32768 * (f % 8)) by (bit_vector);
        (a & 7) | ((b & 7) << 3) | ((c & 7) << 6) | ((d & 7) << 9) | ((e & 7) << 12) | ((f & 7)
            << 15)
    }

    /// Inverse of [`pack`](Self::pack).
    #[must_use]
    pub fn unpack(p: u32) -> (r: Self)
        ensures
            r.min@ == seq![p % 8, p / 8 % 8, p / 64 % 8],
            r.max@ == seq![p / 512 % 8, p / 4096 % 8, p / 32768 % 8],
    {
        assert(p & 7 == p % 8 && (p >> 3) & 7 == p / 8 % 8 && (p >> 6) & 7 == p / 64 % 8 && (p >> 9)
            & 7 == p / 512 % 8 && (p >> 12) & 7 == p / 4096 % 8 && (p >> 15) & 7 == p / 32768 % 8)
            by (bit_vector);
        Self {
            min: [p & 7, (p >> 3) & 7, (p >> 6) & 7],
            max: [(p >> 9) & 7, (p >> 12) & 7, (p >> 15) & 7],
        }
    }
}

/// Packing and unpacking in-range bounds is the identity, and neither the
/// transparency flag nor anything else above bit 18 disturbs it.
#[verifier::spinoff_prover]
pub proof fn law_unpack_inverts_pack(b: LeafBounds, high: int, p: u32, r: LeafBounds)
    requires
        b.in_range(),
        0 <= high,
        p == b.packed() + high * 0x4_0000,
        r.min@ == seq![p % 8, p / 8 % 8, p / 64 % 8],
        r.max@ == seq![p / 512 % 8, p / 4096 % 8, p / 32768 % 8],
    ensures
        r.min@ == b.min@,
        r.max@ == b.max@,
{
    let (d0, d1, d2) = (b.min[0] as int, b.min[1] as int, b.min[2] as int);
    let (d3, d4, d5) = (b.max[0] as int, b.max[1] as int, b.max[2] as int);
    assert(b.packed() == d0 + 8 * d1 + 64 * d2 + 512 * d3 + 4096 * d4 + 32768 * d5) by {
        assert(b.min[0] < 8 && b.max[0] < 8);
        assert(b.min[1] < 8 && b.max[1] < 8);
        assert(b.min[2] < 8 && b.max[2] < 8);
    }
    assert(0 <= d0 < 8 && 0 <= d3 < 8) by {
        assert(b.min[0] < 8 && b.max[0] < 8);
    }
    assert(0 <= d1 < 8 && 0 <= d4 < 8) by {
        assert(b.min[1] < 8 && b.max[1] < 8);
    }
    assert(0 <= d2 < 8 && 0 <= d5 < 8) by {
        assert(b.min[2] < 8 && b.max[2] < 8);
    }
    lemma_octal(d0, d1, d2, d3, d4, d5, high);
    assert(r.min@ =~= b.min@);
    assert(r.max@ =~= b.max@);
}

/// Reading back six octal digits.
#[verifier::spinoff_prover]
proof fn lemma_octal(d0: int, d1: int, d2: int, d3: int, d4: int, d5: int, high: int)
    requires
        0 <= d0 < 8,
        0 <= d1 < 8,
        0 <= d2 < 8,
        0 <= d3 < 8,
        0 <= d4 < 8,
        0 <= d5 < 8,
        0 <= high,
    ensures
        ({
            let p = d0 + 8 * d1 + 64 * d2 + 512 * d3 + 4096 * d4 + 32768 * d5 + high * 0x4_0000;
            &&& p % 8 == d0
            &&& p / 8 % 8 == d1
            &&& p / 64 % 8 == d2
            &&& p / 512 % 8 == d3
            &&& p / 4096 % 8 == d4
            &&& p / 32768 % 8 == d5
        }),
{
    let q5 = d5 + 8 * high;
    let q4 = d4 + 8 * q5;
    let q3 = d3 + 8 * q4;
    let q2 = d2 + 8 * q3;
    let q1 = d1 + 8 * q2;
    let p = d0 + 8 * q1;
    let l1 = d0 + 8 * d1;
    let l2 = l1 + 64 * d2;
    let l3 = l2 + 512 * d3;
    let l4 = l3 + 4096 * d4;
    lemma_fundamental_div_mod_converse(p, 8, q1, d0);
    lemma_fundamental_div_mod_converse(p, 64, q2, l1);
    lemma_fundamental_div_mod_converse(p, 512, q3, l2);
    lemma_fundamental_div_mod_converse(p, 4096, q4, l3);
    lemma_fundamental_div_mod_converse(p, 32768, q5, l4);
}

impl LeafBrick {
    /// Whether the voxel at brick-local `(x, y, z)` is set.
    pub open spec fn occ(self, x: u32, y: u32, z: u32) -> bool {
        self@[local_index(x, y, z)]
    }

    /// No voxel is set.
    pub open spec fn vacant(self) -> bool {
        forall|m: int| 0 <= m < 512 ==> !#[trigger] self@[m]
    }

    /// `b` is the bounding box of the set voxels: it holds them all, and each
    /// of its six faces touches one.
    pub open spec fn tight(self, b: LeafBounds) -> bool {
        &&& forall|x: u32, y: u32, z: u32|
            x < 8 && y < 8 && z < 8 && #[trigger] self.occ(x, y, z) ==> b.min[0] <= x <= b.max[0]
                && b.min[1] <= y <= b.max[1] && b.min[2] <= z <= b.max[2]
        &&& exists|x: u32, y: u32, z: u32|
            x < 8 && y < 8 && z < 8 && #[trigger] self.occ(x, y, z) && x == b.min[0]
        &&& exists|x: u32, y: u32, z: u32|
            x < 8 && y < 8 && z < 8 && #[trigger] self.occ(x, y, z) && y == b.min[1]
        &&& exists|x: u32, y: u32, z: u32|
            x < 8 && y < 8 && z < 8 && #[trigger] self.occ(x, y, z) && z == b.min[2]
        &&& exists|x: u32, y: u32, z: u32|
            x < 8 && y < 8 && z < 8 && #[trigger] self.occ(x, y, z) && x == b.max[0]
        &&& exists|x: u32, y: u32, z: u32|
            x < 8 && y < 8 && z < 8 && #[trigger] self.occ(x, y, z) && y == b.max[1]
        &&& exists|x: u32, y: u32, z: u32|
            x < 8 && y < 8 && z < 8 && #[trigger] self.occ(x, y, z) && z == b.max[2]
    }

    /// `b` is the box reported for this brick: tight around its voxels, or the
    /// whole brick where it has none or more than [`BOUNDS_SCAN_LIMIT`].
    pub open spec fn bounded_by(self, b: LeafBounds) -> bool {
        &&& b.in_range()
        &&& ones(self@, 512) > BOUNDS_SCAN_LIMIT || ones(self@, 512) == 0 ==> b.is_full()
        &&& 0 < ones(self@, 512) <= BOUNDS_SCAN_LIMIT ==> self.tight(b)
    }

    /// An all-empty brick.
    #[must_use]
    pub fn empty() -> (r: LeafBrick)
        ensures
            r.vacant(),
    {
        let r = LeafBrick { bits: [0u64;8] };
        proof {
            assert forall|m: int| 0 <= m < 512 implies !#[trigger] r@[m] by {
                lemma_zero_bit((m % 64) as u64);
            }
        }
        r
    }

    /// Sets the bit at intra-brick Morton index `i` (`0..512`).
    pub fn set_morton(&mut self, i: u32)
        requires
            i < 512,
        ensures
            final(self)@ == old(self)@.update(i as int, true),
    {
        let ghost before = self@;
        proof {
            lemma_parts(i);
        }
        let w: usize = (i >> 6) as usize;
        let word: u64 = self.bits[w];
        self.bits[w] = word | (1u64 << (i & 63));
        proof {
            assert forall|m: int| 0 <= m < 512 implies self@[m] == before.update(i as int, true)[m] by {
                lemma_bit_ops(word, (i % 64) as u64, (m % 64) as u64);
            }
            assert(self@ =~= before.update(i as int, true));
        }
    }

    /// Sets the bit for intra-brick voxel coordinate `(x, y, z)` (each `0..8`).
    pub fn set_local(&mut self, x: u32, y: u32, z: u32)
        ensures
            final(self)@ == old(self)@.update(local_index(x, y, z), true),
    {
        self.set_morton(morton::encode_brick(x, y, z));
    }

    /// Clears the bit at intra-brick Morton index `i` (`0..512`).
    pub fn clear_morton(&mut self, i: u32)
        requires
            i < 512,
        ensures
            final(self)@ == old(self)@.update(i as int, false),
    {
        let ghost before = self@;
        proof {
            lemma_parts(i);
        }
        let w: usize = (i >> 6) as usize;
        let word: u64 = self.bits[w];
        self.bits[w] = word & !(1u64 << (i & 63));
        proof {
            assert forall|m: int| 0 <= m < 512 implies self@[m] == before.update(
                i as int,
                false,
            )[m] by {
                lemma_bit_ops(word, (i % 64) as u64, (m % 64) as u64);
            }
            assert(self@ =~= before.update(i as int, false));
        }
    }

    /// Clears the bit for intra-brick voxel coordinate `(x, y, z)` (each `0..8`).
    pub fn clear_local(&mut self, x: u32, y: u32, z: u32)
        ensures
            final(self)@ == old(self)@.update(local_index(x, y, z), false),
    {
        self.clear_morton(morton::encode_brick(x, y, z));
    }

    /// Reads the bit at intra-brick Morton index `i` (`0..512`).
    #[must_use]
    pub fn get_morton(&self, i: u32) -> (r: bool)
        requires
            i < 512,
        ensures
            r == self@[i as int],
    {
        proof {
            lemma_parts(i);
        }
        (self.bits[(i >> 6) as usize] >> (i & 63)) & 1 == 1
    }

    /// Reads the bit for intra-brick voxel coordinate `(x, y, z)` (each `0..8`).
    #[must_use]
    pub fn get_local(&self, x: u32, y: u32, z: u32) -> (r: bool)
        ensures
            r == self.occ(x, y, z),
    {
        self.get_morton(morton::encode_brick(x, y, z))
    }

    /// Whether the brick has no set voxels (the coarse skip signal).
    #[must_use]
    pub fn is_empty(&self) -> (r: bool)
        ensures
            r == self.vacant(),
    {
        let mut w: usize = 0;
        while w < 8
            invariant
                0 <= w <= 8,
                forall|v: int| 0 <= v < w ==> self.bits[v] == 0,
            decreases 8 - w,
        {
            if self.bits[w] != 0 {
                proof {
                    let word = self.bits[w as int];
                    if self.vacant() {
                        assert forall|i: int| 0 <= i < 64 implies bit(word, i) == #[trigger] bit(
                            0,
                            i,
                        ) by {
                            assert(!self@[64 * w + i]);
                            lemma_zero_bit(i as u64);
                        }
                        lemma_bits_determine(word, 0);
                    }
                }
                return false;
            }
            w = w + 1;
        }
        proof {
            assert forall|m: int| 0 <= m < 512 implies !#[trigger] self@[m] by {
                assert(self.bits[m / 64] == 0);
                lemma_zero_bit((m % 64) as u64);
            }
        }
        true
    }

    /// Number of set voxels.
    #[must_use]
    pub fn count_occupied(&self) -> (r: u32)
        ensures
            r == ones(self@, 512),
    {
        let mut total: u32 = 0;
        let mut w: usize = 0;
        while w < 8
            invariant
                0 <= w <= 8,
                total == ones(self@, 64 * w),
            decreases 8 - w,
        {
            proof {
                lemma_ones_split(self@, bits_of(self.bits[w as int]), 64 * w, 64);
                lemma_ones_monotone(self@, 0, 64 * w + 64);
            }
            total = total + self.bits[w].count_ones();
            w = w + 1;
        }
        total
    }

    /// Counts occupied voxels whose intra-brick Morton index is **strictly less
    /// than** `morton`: the place of the voxel at `morton` among its leaf's
    /// colours. A 16-word masked popcount over [`words32`](Self::words32).
    #[must_use]
    pub fn occupied_rank(&self, morton: u32) -> (r: u32)
        requires
            morton <= 512,
        ensures
            r == ones(self@, morton as int),
    {
        let words: [u32; 16] = self.words32();
        proof {
            lemma_parts(morton);
        }
        let full: usize = (morton >> 5) as usize;
        let mut rank: u32 = 0;
        let mut w: usize = 0;
        while w < full
            invariant
                0 <= w <= full <= 16,
                rank == ones(self@, 32 * w),
                forall|i: int|
                    0 <= i < 512 ==> bit(#[trigger] words[i / 32] as u64, i % 32) == self@[i],
            decreases full - w,
        {
            proof {
                let word = words[w as int] as u64;
                assert forall|i: int| 0 <= i < 32 implies #[trigger] bits_of(word)[i] == self@[32 * w
                    + i] by {
                    assert((32 * w + i) / 32 == w && (32 * w + i) % 32 == i);
                }
                lemma_ones_split(self@, bits_of(word), 32 * w, 32);
                lemma_ones_monotone(self@, 0, 32 * w + 32);
            }
            rank = rank + words[w].count_ones();
            w = w + 1;
        }
        let rem: u32 = morton & 31;
        if rem > 0 {
            let word: u32 = words[full];
            assert(1u32 << rem >= 1) by (bit_vector)
                requires
                    rem < 32,
            ;
            let part: u32 = word & ((1u32 << rem) - 1);
            proof {
                assert(part as u64 == (word as u64) & ((1u64 << rem) - 1) as u64) by (bit_vector)
                    requires
                        rem < 32,
                        part == word & ((1u32 << rem) - 1) as u32,
                ;
                assert forall|i: int| 0 <= i < 32 implies #[trigger] bits_of(part as u64)[i] == (i
                    < rem && self@[32 * full + i]) by {
                    lemma_bit_ops(word as u64, rem as u64, i as u64);
                    assert((32 * full + i) / 32 == full && (32 * full + i) % 32 == i);
                }
                lemma_tail_clear(bits_of(part as u64), rem as int, 32);
                lemma_ones_split(self@, bits_of(part as u64), 32 * full, rem as int);
                lemma_ones_monotone(self@, 0, morton as int);
            }
            rank = rank + part.count_ones();
        }
        rank
    }

    /// The bounding box of the set voxels (see [`LeafBounds`]). A leaf with more
    /// than [`BOUNDS_SCAN_LIMIT`] set voxels, or none, reports the full box.
    #[must_use]
    pub fn occupied_bounds(&self) -> (r: LeafBounds)
        ensures
            self.bounded_by(r),
    {
        if self.count_occupied() > BOUNDS_SCAN_LIMIT {
            return LeafBounds::full();
        }
        let mut b: LeafBounds = LeafBounds { min: [7, 7, 7], max: [0, 0, 0] };
        let mut any: bool = false;
        let mut i: u32 = 0;
        while i < 512
            invariant
                0 <= i <= 512,
                b.in_range(),
                any == (ones(self@, i as int) > 0),
                any ==> self.tight_below(b, i as int),
                !any ==> b.min@ == seq![7u32, 7, 7] && b.max@ == seq![0u32, 0, 0],
            decreases 512 - i,
        {
            if self.get_morton(i) {
                let c: VoxelCoord = morton::decode(i as u64);
                let ghost was = b;
                proof {
                    lemma_local_of_decode(c, i);
                }
                b = widen(b, c);
                proof {
                    lemma_ones_zero(self@, i as int);
                    assert(self.occ(c.x, c.y, c.z));
                    self.lemma_tight_step(was, b, c, i as int, any);
                }
                any = true;
            } else {
                proof {
                    if any {
                        assert forall|x: u32, y: u32, z: u32|
                            x < 8 && y < 8 && z < 8 && #[trigger] self.occ(x, y, z) && local_index(
                                x,
                                y,
                                z,
                            ) < i + 1 implies local_index(x, y, z) < i by {}
                    }
                }
            }
            i = i + 1;
        }
        if any {
            proof {
                assert forall|x: u32, y: u32, z: u32| x < 8 && y < 8 && z < 8 implies #[trigger]
                    local_index(x, y, z) < 512 by {
                    morton::lemma_local_range(x, y, z);
                }
            }
            b
        } else {
            LeafBounds::full()
        }
    }

    /// [`tight`](Self::tight) for the voxels whose Morton index is below `n`.
    spec fn tight_below(self, b: LeafBounds, n: int) -> bool {
        &&& forall|x: u32, y: u32, z: u32|
            x < 8 && y < 8 && z < 8 && #[trigger] self.occ(x, y, z) && local_index(x, y, z) < n
                ==> b.min[0] <= x <= b.max[0] && b.min[1] <= y <= b.max[1] && b.min[2] <= z
                <= b.max[2]
        &&& exists|x: u32, y: u32, z: u32|
            x < 8 && y < 8 && z < 8 && #[trigger] self.occ(x, y, z) && x == b.min[0]
        &&& exists|x: u32, y: u32, z: u32|
            x < 8 && y < 8 && z < 8 && #[trigger] self.occ(x, y, z) && y == b.min[1]
        &&& exists|x: u32, y: u32, z: u32|
            x < 8 && y < 8 && z < 8 && #[trigger] self.occ(x, y, z) && z == b.min[2]
        &&& exists|x: u32, y: u32, z: u32|
            x < 8 && y < 8 && z < 8 && #[trigger] self.occ(x, y, z) && x == b.max[0]
        &&& exists|x: u32, y: u32, z: u32|
            x < 8 && y < 8 && z < 8 && #[trigger] self.occ(x, y, z) && y == b.max[1]
        &&& exists|x: u32, y: u32, z: u32|
            x < 8 && y < 8 && z < 8 && #[trigger] self.occ(x, y, z) && z == b.max[2]
    }

    proof fn lemma_tight_step(self, was: LeafBounds, b: LeafBounds, c: VoxelCoord, n: int, any: bool)
        requires
            0 <= n < 512,
            c.x < 8,
            c.y < 8,
            c.z < 8,
            local_index(c.x, c.y, c.z) == n,
            self.occ(c.x, c.y, c.z),
            was.in_range(),
            any ==> self.tight_below(was, n),
            !any ==> was.min@ == seq![7u32, 7, 7] && was.max@ == seq![0u32, 0, 0],
            any == (ones(self@, n) > 0),
            widened(was, c, b),
        ensures
            self.tight_below(b, n + 1),
    {
        lemma_ones_zero(self@, n);
        assert forall|x: u32, y: u32, z: u32|
            x < 8 && y < 8 && z < 8 && #[trigger] self.occ(x, y, z) && local_index(x, y, z) < n
                + 1 implies b.min[0] <= x <= b.max[0] && b.min[1] <= y <= b.max[1] && b.min[2] <= z
            <= b.max[2] by {
            if local_index(x, y, z) == n {
                law_morton_injective(
                    (x % 8) as nat,
                    (y % 8) as nat,
                    (z % 8) as nat,
                    (c.x % 8) as nat,
                    (c.y % 8) as nat,
                    (c.z % 8) as nat,
                );
            } else if !any {
                assert(!self@[local_index(x, y, z)]);
            }
        }
    }

    /// The raw words: 512 bits, 64 to a word.
    #[must_use]
    pub fn words(&self) -> (r: [u64; 8])
        ensures
            forall|m: int| 0 <= m < 512 ==> bit(#[trigger] r[m / 64], m % 64) == self@[m],
    {
        self.bits
    }

    /// The leaf as 16 `u32` words, low half of each `u64` first: the bit for
    /// Morton index `i` is `(words[i >> 5] >> (i & 31)) & 1`.
    #[must_use]
    pub fn words32(&self) -> (r: [u32; 16])
        ensures
            forall|i: int| 0 <= i < 512 ==> bit(#[trigger] r[i / 32] as u64, i % 32) == self@[i],
    {
        let mut out: [u32; 16] = [0u32;16];
        let mut w: usize = 0;
        while w < 8
            invariant
                0 <= w <= 8,
                forall|v: int|
                    0 <= v < w ==> out[2 * v] == #[trigger] self.bits[v] as u32 && out[2 * v + 1]
                        == (self.bits[v] >> 32) as u32,
            decreases 8 - w,
        {
            out[w * 2] = self.bits[w] as u32;
            out[w * 2 + 1] = (self.bits[w] >> 32) as u32;
            w = w + 1;
        }
        proof {
            assert forall|i: int| 0 <= i < 512 implies bit(#[trigger] out[i / 32] as u64, i % 32)
                == self@[i] by {
                let v = i / 64;
                lemma_halves(self.bits[v], 0, 0, (i % 32) as u64);
                if i % 64 < 32 {
                    assert(i / 32 == 2 * v && i % 64 == i % 32);
                } else {
                    assert(i / 32 == 2 * v + 1 && i % 64 == i % 32 + 32);
                }
            }
        }
        out
    }

    /// Rebuilds a brick from 16 `u32` words: the inverse of
    /// [`words32`](Self::words32).
    #[must_use]
    pub fn from_words32(words: [u32; 16]) -> (r: Self)
        ensures
            forall|i: int| 0 <= i < 512 ==> #[trigger] r@[i] == bit(words[i / 32] as u64, i % 32),
    {
        let mut bits: [u64; 8] = [0u64;8];
        let mut w: usize = 0;
        while w < 8
            invariant
                0 <= w <= 8,
                forall|v: int|
                    0 <= v < w ==> #[trigger] bits[v] == (words[2 * v] as u64) | ((words[2 * v
                        + 1] as u64) << 32),
            decreases 8 - w,
        {
            bits[w] = (words[w * 2] as u64) | ((words[w * 2 + 1] as u64) << 32);
            w = w + 1;
        }
        let r = Self { bits };
        proof {
            assert forall|i: int| 0 <= i < 512 implies #[trigger] r@[i] == bit(
                words[i / 32] as u64,
                i % 32,
            ) by {
                let v = i / 64;
                lemma_halves(0, words[2 * v], words[2 * v + 1], (i % 32) as u64);
                if i % 64 < 32 {
                    assert(i / 32 == 2 * v && i % 64 == i % 32);
                } else {
                    assert(i / 32 == 2 * v + 1 && i % 64 == i % 32 + 32);
                }
            }
        }
        r
    }
}

impl Default for LeafBrick {
    fn default() -> (r: Self)
        ensures
            r.vacant(),
    {
        Self::empty()
    }
}

/// `b` is `was` widened just enough to hold `c`.
spec fn widened(was: LeafBounds, c: VoxelCoord, b: LeafBounds) -> bool {
    &&& b.min[0] == if c.x < was.min[0] { c.x } else { was.min[0] }
    &&& b.min[1] == if c.y < was.min[1] { c.y } else { was.min[1] }
    &&& b.min[2] == if c.z < was.min[2] { c.z } else { was.min[2] }
    &&& b.max[0] == if c.x > was.max[0] { c.x } else { was.max[0] }
    &&& b.max[1] == if c.y > was.max[1] { c.y } else { was.max[1] }
    &&& b.max[2] == if c.z > was.max[2] { c.z } else { was.max[2] }
}

fn lesser(a: u32, b: u32) -> (r: u32)
    ensures
        r == if a < b { a } else { b },
{
    if a < b { a } else { b }
}

fn greater(a: u32, b: u32) -> (r: u32)
    ensures
        r == if a > b { a } else { b },
{
    if a > b { a } else { b }
}

fn widen(b: LeafBounds, c: VoxelCoord) -> (r: LeafBounds)
    ensures
        widened(b, c, r),
{
    LeafBounds {
        min: [lesser(c.x, b.min[0]), lesser(c.y, b.min[1]), lesser(c.z, b.min[2])],
        max: [greater(c.x, b.max[0]), greater(c.y, b.max[1]), greater(c.z, b.max[2])],
    }
}

/// The view of a brick has one entry per voxel.
pub broadcast proof fn lemma_view_len(l: LeafBrick)
    ensures
        #[trigger] l@.len() == 512,
{
}

/// Bricks with the same voxels are equal, word for word.
pub proof fn law_view_determines_brick(a: LeafBrick, b: LeafBrick)
    requires
        a@ == b@,
    ensures
        a == b,
{
    assert forall|w: int| 0 <= w < 8 implies #[trigger] a.bits[w] == b.bits[w] by {
        assert forall|i: int| 0 <= i < 64 implies bit(a.bits[w], i) == #[trigger] bit(
            b.bits[w],
            i,
        ) by {
            let m = 64 * w + i;
            assert(m / 64 == w && m % 64 == i);
            assert(a@[m] == b@[m]);
            assert(a@[m] == bit(a.bits[m / 64], m % 64));
            assert(b@[m] == bit(b.bits[m / 64], m % 64));
        }
        lemma_bits_determine(a.bits[w], b.bits[w]);
    }
    assert(a.bits =~= b.bits);
}

/// A brick has one bounding box.
pub proof fn law_bounds_unique(l: LeafBrick, a: LeafBounds, b: LeafBounds)
    requires
        l.bounded_by(a),
        l.bounded_by(b),
    ensures
        a.min@ == b.min@,
        a.max@ == b.max@,
        a.packed() == b.packed(),
{
    if 0 < ones(l@, 512) <= BOUNDS_SCAN_LIMIT {
        lemma_tight_inside(l, a, b);
        lemma_tight_inside(l, b, a);
    }
    assert(a.min@ =~= b.min@);
    assert(a.max@ =~= b.max@);
    assert forall|i: int| 0 <= i < 3 implies a.min[i] == b.min[i] && a.max[i] == b.max[i] by {
        assert(a.min@[i] == b.min@[i]);
        assert(a.max@[i] == b.max@[i]);
    }
}

/// A tight box lies inside every box that holds the voxels.
proof fn lemma_tight_inside(l: LeafBrick, a: LeafBounds, b: LeafBounds)
    requires
        l.tight(a),
        l.tight(b),
    ensures
        b.min[0] <= a.min[0],
        b.min[1] <= a.min[1],
        b.min[2] <= a.min[2],
        a.max[0] <= b.max[0],
        a.max[1] <= b.max[1],
        a.max[2] <= b.max[2],
{
}

/// Splitting a brick into 16 words and rebuilding it is the identity.
pub proof fn law_words32_round_trip(l: LeafBrick, words: [u32; 16], r: LeafBrick)
    requires
        forall|i: int| 0 <= i < 512 ==> bit(#[trigger] words[i / 32] as u64, i % 32) == l@[i],
        forall|i: int| 0 <= i < 512 ==> #[trigger] r@[i] == bit(words[i / 32] as u64, i % 32),
    ensures
        r == l,
{
    assert(r@ =~= l@);
    law_view_determines_brick(r, l);
}

/// The rank telescopes: it grows by one exactly past each set voxel.
pub proof fn law_rank_telescopes(l: LeafBrick, m: int)
    requires
        0 <= m < 512,
    ensures
        ones(l@, m + 1) == ones(l@, m) + if l@[m] {
            1int
        } else {
            0int
        },
{
}

/// A bounds word holds six fields of three bits, the lower corner's first and x
/// first of each; unpacking it, whatever is flagged above, gives the bounds
/// back.
pub proof fn law_bounds_word_reads_back(b: LeafBounds, p: u32, high: u32, r: LeafBounds)
    requires
        b.in_range(),
        call_ensures(LeafBounds::pack, (b,), p),
        p + high * 0x4_0000 <= u32::MAX,
        call_ensures(LeafBounds::unpack, ((p + high * 0x4_0000) as u32,), r),
    ensures
        r.min@ == b.min@,
        r.max@ == b.max@,
        p < LeafBounds::TRANSPARENCY_BIT,
        p % 8 == b.min[0] && p / 512 % 8 == b.max[0],
        p / 8 % 8 == b.min[1] && p / 4096 % 8 == b.max[1],
        p / 64 % 8 == b.min[2] && p / 32768 == b.max[2],
{
    law_unpack_inverts_pack(b, high as int, (p + high * 0x4_0000) as u32, r);
    assert(b.min[0] < 8 && b.max[0] < 8);
    assert(b.min[1] < 8 && b.max[1] < 8);
    assert(b.min[2] < 8 && b.max[2] < 8);
    lemma_octal(
        b.min[0] as int,
        b.min[1] as int,
        b.min[2] as int,
        b.max[0] as int,
        b.max[1] as int,
        b.max[2] as int,
        0,
    );
}

/// The bounds hold every voxel of the brick. Where the brick has some but not
/// many they are the least box that does: any box that holds the voxels holds
/// the bounds. A brick with none, or with more than an eighth of its voxels, is
/// bounded whole.
pub proof fn law_bounds_are_least_box(
    l: LeafBrick,
    b: LeafBounds,
    lo: [u32; 3],
    hi: [u32; 3],
    whole: LeafBounds,
)
    requires
        call_ensures(LeafBrick::occupied_bounds, (&l,), b),
        call_ensures(LeafBounds::full, (), whole),
        forall|x: u32, y: u32, z: u32|
            x < 8 && y < 8 && z < 8 && #[trigger] l.occ(x, y, z) ==> lo[0] <= x <= hi[0] && lo[1]
                <= y <= hi[1] && lo[2] <= z <= hi[2],
    ensures
        forall|x: u32, y: u32, z: u32|
            x < 8 && y < 8 && z < 8 && #[trigger] l.occ(x, y, z) ==> b.min[0] <= x <= b.max[0]
                && b.min[1] <= y <= b.max[1] && b.min[2] <= z <= b.max[2],
        0 < ones(l@, 512) && 8 * ones(l@, 512) <= 512 ==> lo[0] <= b.min[0] && lo[1] <= b.min[1]
            && lo[2] <= b.min[2] && b.max[0] <= hi[0] && b.max[1] <= hi[1] && b.max[2] <= hi[2],
        8 * ones(l@, 512) > 512 || ones(l@, 512) == 0 ==> b.min@ == whole.min@ && b.max@
            == whole.max@,
        forall|i: int| 0 <= i < 3 ==> #[trigger] whole.min[i] == 0 && whole.max[i] == 7,
{
    assert(whole.min@[0] == 0 && whole.min@[1] == 0 && whole.min@[2] == 0);
    assert(whole.max@[0] == 7 && whole.max@[1] == 7 && whole.max@[2] == 7);
    if b.is_full() {
        assert(b.min@[0] == 0 && b.min@[1] == 0 && b.min@[2] == 0);
        assert(b.max@[0] == 7 && b.max@[1] == 7 && b.max@[2] == 7);
    }
}

/// Splitting a brick into words and rebuilding it is the identity. The 32-bit
/// words are the halves of the 64-bit ones, low half first: all read the same
/// stream of voxels.
pub proof fn law_brick_words_read_back(
    l: LeafBrick,
    w: [u32; 16],
    r: LeafBrick,
    d: [u64; 8],
    m: int,
)
    requires
        call_ensures(LeafBrick::words32, (&l,), w),
        call_ensures(LeafBrick::from_words32, (w,), r),
        call_ensures(LeafBrick::words, (&l,), d),
        0 <= m < 512,
    ensures
        r == l,
        bit(d[m / 64], m % 64) == l@[m],
        bit(w[m / 32] as u64, m % 32) == l@[m],
{
    law_words32_round_trip(l, w, r);
}

/// Reads by coordinate and by Morton index agree, an empty brick reads nothing,
/// and it is empty exactly where its count is zero.
pub proof fn law_brick_reads(
    l: LeafBrick,
    x: u32,
    y: u32,
    z: u32,
    m: u32,
    set: bool,
    same: bool,
    empty: bool,
    n: u32,
    blank: LeafBrick,
)
    requires
        call_ensures(morton::encode_brick, (x, y, z), m),
        call_ensures(LeafBrick::get_local, (&l, x, y, z), set),
        call_ensures(LeafBrick::get_morton, (&l, m), same),
        call_ensures(LeafBrick::is_empty, (&l,), empty),
        call_ensures(LeafBrick::count_occupied, (&l,), n),
        call_ensures(LeafBrick::empty, (), blank),
    ensures
        set == same,
        empty <==> n == 0,
        empty ==> !set,
        n <= 512,
        !blank.occ(x, y, z),
        ones(blank@, 512) == 0,
{
    crate::morton::lemma_local_range(x, y, z);
    crate::bits::lemma_ones_zero(l@, 512);
    crate::bits::lemma_ones_zero(blank@, 512);
    lemma_ones_bound(l@, 512);
}

proof fn lemma_ones_bound(s: Seq<bool>, n: int)
    requires
        0 <= n,
    ensures
        ones(s, n) <= n,
    decreases n,
{
    if n > 0 {
        lemma_ones_bound(s, n - 1);
    }
}

/// Setting and clearing touch one voxel, the same by coordinate and by Morton
/// index: it reads as it was put, and every other as before.
pub proof fn law_brick_writes(
    a: &mut LeafBrick,
    b: &mut LeafBrick,
    c: &mut LeafBrick,
    d: &mut LeafBrick,
    x: u32,
    y: u32,
    z: u32,
    m: u32,
    i: int,
)
    requires
        call_ensures(morton::encode_brick, (x, y, z), m),
        call_ensures(LeafBrick::set_local, (a, x, y, z), ()),
        call_ensures(LeafBrick::set_morton, (b, m), ()),
        call_ensures(LeafBrick::clear_local, (c, x, y, z), ()),
        call_ensures(LeafBrick::clear_morton, (d, m), ()),
        0 <= i < 512,
    ensures
        final(a)@[m as int] && !final(c)@[m as int],
        i != m ==> final(a)@[i] == old(a)@[i] && final(c)@[i] == old(c)@[i],
        *old(a) == *old(b) ==> *final(a) == *final(b),
        *old(c) == *old(d) ==> *final(c) == *final(d),
        *old(c) == *final(a) && !old(a)@[m as int] ==> *final(c) == *old(a),
{
    crate::morton::lemma_local_range(x, y, z);
    if *old(a) == *old(b) {
        law_view_determines_brick(*final(a), *final(b));
    }
    if *old(c) == *old(d) {
        law_view_determines_brick(*final(c), *final(d));
    }
    if *old(c) == *final(a) && !old(a)@[m as int] {
        assert(final(c)@ =~= old(a)@);
        law_view_determines_brick(*final(c), *old(a));
    }
}

/// A voxel's rank is how many set voxels come before it: none before the first,
/// all of them past the last, and one more past each set voxel.
pub proof fn law_rank_counts_before(
    l: LeafBrick,
    m: u32,
    here: u32,
    next: u32,
    first: u32,
    last: u32,
    n: u32,
    set: bool,
)
    requires
        m < 512,
        call_ensures(LeafBrick::occupied_rank, (&l, m), here),
        call_ensures(LeafBrick::occupied_rank, (&l, (m + 1) as u32), next),
        call_ensures(LeafBrick::occupied_rank, (&l, 0), first),
        call_ensures(LeafBrick::occupied_rank, (&l, 512), last),
        call_ensures(LeafBrick::count_occupied, (&l,), n),
        call_ensures(LeafBrick::get_morton, (&l, m), set),
    ensures
        first == 0,
        last == n,
        set ==> next == here + 1,
        !set ==> next == here,
{
    law_rank_telescopes(l, m as int);
}

} // verus!
