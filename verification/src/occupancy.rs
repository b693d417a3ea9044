//! Binary occupancy: the input field the structure is built from.
//!
//! [`OccupancyField`] is queried per voxel, so fixtures can be **procedural**
//! (computed on demand) and need not materialize `n³` bits. [`BitGrid`] is the
//! dense, materialized implementation for small grids and for caching a
//! procedural field.

use crate::bits::{bit, bits_of, lemma_bit_ops, lemma_ones_monotone, lemma_ones_split, lemma_ones_zero, lemma_zero_bit, ones};
use crate::coord::VoxelCoord;
use crate::resolution::{lemma_pow4_increases, pow4, Resolution};
use vstd::arithmetic::div_mod::lemma_fundamental_div_mod_converse;
use vstd::arithmetic::mul::lemma_mul_is_commutative;
use vstd::prelude::*;

verus! {

/// A binary occupancy field over a [`Resolution`]-sized grid.
///
/// Implementors must return `false` for any out-of-bounds coordinate so callers
/// can probe freely near the grid edge.
pub trait OccupancyField {
    /// The grid the field is defined over.
    spec fn grid(&self) -> Resolution;

    /// Whether voxel `c` is occupied.
    spec fn occ(&self, c: VoxelCoord) -> bool;

    /// The field's parameters admit queries.
    spec fn valid(&self) -> bool;

    /// The grid resolution this field is defined over.
    fn resolution(&self) -> (r: Resolution)
        ensures
            r == self.grid(),
            r.wf(),
    ;

    /// Whether voxel `c` is occupied. `false` when `c` is out of bounds.
    fn is_occupied(&self, c: VoxelCoord) -> (r: bool)
        requires
            self.valid(),
        ensures
            r == self.occ(c),
            r ==> c.within(self.grid()),
    ;
}

/// Linear index `x + y·n + z·n²` of a voxel in an `n³` grid.
pub open spec fn linear(c: VoxelCoord, n: int) -> int {
    c.x + n * (c.y + n * c.z)
}

/// Number of voxels of a grid.
pub open spec fn volume(resolution: Resolution) -> int {
    resolution.side() * resolution.side() * resolution.side()
}

/// One bit per voxel of `resolution` fits in addressable memory.
pub open spec fn dense_fits(resolution: Resolution) -> bool {
    volume(resolution) / 8 <= isize::MAX
}

/// A dense bitset occupancy grid: one bit per voxel, `n³` bits total.
///
/// Intended for small resolutions (tests, fixtures, oracle inputs) and for
/// materializing a procedural [`OccupancyField`]. At large resolutions prefer a
/// procedural field: a dense `2048³` grid is about 1 GiB.
#[derive(Debug)]
pub struct BitGrid {
    resolution: Resolution,
    /// `n³` bits packed into 64-bit words, little-endian within each word.
    words: Vec<u64>,
}

impl BitGrid {
    /// The grid's bits in linear order.
    pub closed spec fn cells(self) -> Seq<bool> {
        Seq::new(64 * self.words@.len(), |i: int| bit(self.words@[i / 64], i % 64))
    }

    /// The grid's resolution.
    pub closed spec fn spec_resolution(self) -> Resolution {
        self.resolution
    }

    /// One bit per voxel, within addressable memory.
    pub open spec fn wf(self) -> bool {
        &&& self.spec_resolution().wf()
        &&& dense_fits(self.spec_resolution())
        &&& self.cells().len() == volume(self.spec_resolution())
    }

    /// The grid holds exactly the field's voxels.
    pub open spec fn materializes<F: OccupancyField>(self, field: &F) -> bool {
        &&& self.wf()
        &&& self.spec_resolution() == field.grid()
        &&& forall|c: VoxelCoord|
            #[trigger] self.occ(c) == (c.within(field.grid()) && field.occ(c))
    }

    /// The grid is `before` with voxel `c`, where it is in bounds, set to `v`.
    pub open spec fn edited(self, before: BitGrid, c: VoxelCoord, v: bool) -> bool {
        &&& self.wf()
        &&& self.spec_resolution() == before.spec_resolution()
        &&& forall|d: VoxelCoord|
            #[trigger] self.occ(d) == if d == c && c.within(before.spec_resolution()) {
                v
            } else {
                before.occ(d)
            }
    }

    #[verifier::type_invariant]
    closed spec fn inv(self) -> bool {
        self.wf()
    }

    /// An all-empty grid at `resolution`, which must be small enough for one
    /// bit per voxel to fit in addressable memory.
    #[must_use]
    pub fn empty(resolution: Resolution) -> (r: Self)
        requires
            dense_fits(resolution),
        ensures
            r.wf(),
            r.spec_resolution() == resolution,
            forall|i: int| 0 <= i < volume(resolution) ==> !#[trigger] r.cells()[i],
    {
        let bits: u128 = resolution.total_voxels();
        let n: u32 = resolution.voxels_per_axis();
        proof {
            lemma_volume(resolution);
        }
        let count: usize = (bits / 64) as usize;
        let words: Vec<u64> = vec![0u64; count];
        let r = Self { resolution, words };
        proof {
            assert forall|i: int| 0 <= i < volume(resolution) implies !#[trigger] r.cells()[i] by {
                lemma_zero_bit((i % 64) as u64);
            }
        }
        r
    }

    /// Builds a grid directly from pre-computed packed words, such as a GPU
    /// occupancy generator reads back. `words` must be exactly `n³/64` words in
    /// the same `x + y·n + z·n²` bit order [`set`](Self::set) uses (bit `i` in
    /// word `i/64`, little-endian within the word).
    #[must_use]
    pub fn from_raw(resolution: Resolution, words: Vec<u64>) -> (r: Self)
        requires
            dense_fits(resolution),
            words@.len() == volume(resolution) / 64,
        ensures
            r.wf(),
            r.spec_resolution() == resolution,
            forall|i: int|
                0 <= i < volume(resolution) ==> #[trigger] r.cells()[i] == bit(
                    words@[i / 64],
                    i % 64,
                ),
    {
        let n: u32 = resolution.voxels_per_axis();
        proof {
            lemma_volume(resolution);
        }
        Self { resolution, words }
    }

    /// Materializes a procedural field into a dense grid (small resolutions).
    #[must_use]
    pub fn from_field<F: OccupancyField>(field: &F) -> (r: Self)
        requires
            field.valid(),
            dense_fits(field.grid()),
        ensures
            r.materializes(field),
    {
        let resolution: Resolution = field.resolution();
        let mut grid = Self::empty(resolution);
        let n: u32 = resolution.voxels_per_axis();
        proof {
            assert forall|c: VoxelCoord| #[trigger] grid.occ(c) implies false by {
                lemma_linear_range(c, n as int);
            }
            lemma_linear_origin(n as int);
            assert forall|c: VoxelCoord| c.within(field.grid()) implies 0 <= #[trigger] linear(
                c,
                n as int,
            ) by {
                lemma_linear_range(c, n as int);
            }
        }
        let mut z: u32 = 0;
        while z < n
            invariant
                z <= n,
                grid.filled(field, n, linear(VoxelCoord { x: 0, y: 0, z }, n as int)),
            decreases n - z,
        {
            let mut y: u32 = 0;
            while y < n
                invariant
                    z < n,
                    y <= n,
                    grid.filled(field, n, linear(VoxelCoord { x: 0, y, z }, n as int)),
                decreases n - y,
            {
                let mut x: u32 = 0;
                while x < n
                    invariant
                        z < n,
                        y < n,
                        x <= n,
                        grid.filled(field, n, linear(VoxelCoord { x, y, z }, n as int)),
                    decreases n - x,
                {
                    let c = VoxelCoord::new(x, y, z);
                    let ghost was = grid;
                    if field.is_occupied(c) {
                        grid.set(c);
                    }
                    proof {
                        let t = linear(c, n as int);
                        assert forall|d: VoxelCoord| #[trigger] grid.occ(d) == (d.within(
                            field.grid(),
                        ) && field.occ(d) && linear(d, n as int) < t + 1) by {
                            if d.within(field.grid()) && linear(d, n as int) == t {
                                lemma_linear_injective(d, c, n as int);
                            }
                            assert(was.occ(d) == (d.within(field.grid()) && field.occ(d) && linear(
                                d,
                                n as int,
                            ) < t));
                        }
                    }
                    x = x + 1;
                }
                proof {
                    assert(linear(VoxelCoord { x: n, y, z }, n as int) == linear(
                        VoxelCoord { x: 0, y: (y + 1) as u32, z },
                        n as int,
                    )) by (nonlinear_arith)
                        requires
                            y < u32::MAX,
                    ;
                }
                y = y + 1;
            }
            proof {
                assert(linear(VoxelCoord { x: 0, y: n, z }, n as int) == linear(
                    VoxelCoord { x: 0, y: 0, z: (z + 1) as u32 },
                    n as int,
                )) by (nonlinear_arith)
                    requires
                        z < u32::MAX,
                ;
            }
            z = z + 1;
        }
        proof {
            let last = linear(VoxelCoord { x: 0, y: 0, z: n }, n as int);
            assert forall|c: VoxelCoord| #[trigger] grid.occ(c) == (c.within(field.grid())
                && field.occ(c)) by {
                if c.within(field.grid()) {
                    lemma_linear_range(c, n as int);
                    assert(last == n * n * n) by (nonlinear_arith)
                        requires
                            last == 0 + n * (0 + n * n),
                    ;
                }
            }
        }
        grid
    }

    /// The voxels before linear index `t` agree with `field`, the rest are
    /// clear.
    spec fn filled<F: OccupancyField>(self, field: &F, n: u32, t: int) -> bool {
        &&& self.wf()
        &&& field.valid()
        &&& field.grid() == self.spec_resolution()
        &&& n == field.grid().side()
        &&& forall|d: VoxelCoord|
            #[trigger] self.occ(d) == (d.within(field.grid()) && field.occ(d) && linear(
                d,
                n as int,
            ) < t)
    }

    /// Linear bit index `x + y·n + z·n²`, or `None` if out of bounds.
    fn linear_index(&self, c: VoxelCoord) -> (r: Option<u64>)
        ensures
            self.wf(),
            r is Some == c.within(self.spec_resolution()),
            r matches Some(i) ==> i == linear(c, self.spec_resolution().side() as int) && i
                < 64 * self.words@.len(),
    {
        proof {
            use_type_invariant(self);
        }
        if !c.in_bounds(self.resolution) {
            return None;
        }
        let n: u64 = self.resolution.voxels_per_axis() as u64;
        proof {
            lemma_volume(self.resolution);
            lemma_linear_range(c, n as int);
            let (x, y, z) = (c.x as int, c.y as int, c.z as int);
            let m = n as int;
            assert(x + y * m + z * m * m == x + m * (y + m * z) && y * m <= m * m && z * m <= m * m
                && z * m * m <= m * m * m && x + y * m >= 0 && y * m >= 0 && z * m >= 0 && z * m * m
                >= 0 && m * m <= m * m * m) by (nonlinear_arith)
                requires
                    0 <= x < m,
                    0 <= y < m,
                    0 <= z < m,
                    1 <= m,
            ;
        }
        Some(c.x as u64 + c.y as u64 * n + c.z as u64 * n * n)
    }

    /// Sets voxel `c` (no-op if out of bounds).
    pub fn set(&mut self, c: VoxelCoord)
        ensures
            final(self).wf(),
            final(self).spec_resolution() == old(self).spec_resolution(),
            c.within(old(self).spec_resolution()) ==> final(self).cells() == old(self).cells().update(linear(c, old(self).spec_resolution().side() as int), true),
            !c.within(old(self).spec_resolution()) ==> final(self).cells() == old(self).cells(),
            final(self).edited(*old(self), c, true),
    {
        let ghost before = *self;
        if let Some(i) = self.linear_index(c) {
            let w: usize = (i / 64) as usize;
            let word: u64 = self.words[w];
            self.words[w] = word | (1u64 << (i % 64));
            proof {
                assert forall|m: int| 0 <= m < self.cells().len() implies self.cells()[m]
                    == before.cells().update(i as int, true)[m] by {
                    lemma_bit_ops(word, (i % 64) as u64, (m % 64) as u64);
                }
                assert(self.cells() =~= before.cells().update(i as int, true));
                before.lemma_update(*self, c, true);
            }
        }
    }

    /// Clears voxel `c` (no-op if out of bounds).
    pub fn clear(&mut self, c: VoxelCoord)
        ensures
            final(self).wf(),
            final(self).spec_resolution() == old(self).spec_resolution(),
            c.within(old(self).spec_resolution()) ==> final(self).cells() == old(self).cells().update(linear(c, old(self).spec_resolution().side() as int), false),
            !c.within(old(self).spec_resolution()) ==> final(self).cells() == old(self).cells(),
            final(self).edited(*old(self), c, false),
    {
        let ghost before = *self;
        if let Some(i) = self.linear_index(c) {
            let w: usize = (i / 64) as usize;
            let word: u64 = self.words[w];
            self.words[w] = word & !(1u64 << (i % 64));
            proof {
                assert forall|m: int| 0 <= m < self.cells().len() implies self.cells()[m]
                    == before.cells().update(i as int, false)[m] by {
                    lemma_bit_ops(word, (i % 64) as u64, (m % 64) as u64);
                }
                assert(self.cells() =~= before.cells().update(i as int, false));
                before.lemma_update(*self, c, false);
            }
        }
    }

    proof fn lemma_update(self, after: Self, c: VoxelCoord, v: bool)
        requires
            self.wf(),
            after.spec_resolution() == self.spec_resolution(),
            c.within(self.spec_resolution()),
            after.cells() == self.cells().update(
                linear(c, self.spec_resolution().side() as int),
                v,
            ),
        ensures
            forall|d: VoxelCoord|
                #[trigger] after.occ(d) == if d == c {
                    v
                } else {
                    self.occ(d)
                },
    {
        let n = self.spec_resolution().side() as int;
        assert forall|d: VoxelCoord| #[trigger] after.occ(d) == if d == c {
            v
        } else {
            self.occ(d)
        } by {
            lemma_linear_range(c, n);
            if d.within(self.spec_resolution()) {
                lemma_linear_range(d, n);
                if linear(d, n) == linear(c, n) {
                    lemma_linear_injective(d, c, n);
                }
            }
        }
    }

    /// Number of occupied voxels.
    #[must_use]
    pub fn count_occupied(&self) -> (r: u64)
        ensures
            r == ones(self.cells(), volume(self.spec_resolution())),
    {
        proof {
            use_type_invariant(self);
            lemma_volume(self.resolution);
        }
        let mut total: u64 = 0;
        let mut w: usize = 0;
        while w < self.words.len()
            invariant
                w <= self.words.len(),
                self.cells().len() == 64 * self.words@.len(),
                self.cells().len() <= 0x8000_0000_0000_0000,
                total == ones(self.cells(), 64 * w),
            decreases self.words.len() - w,
        {
            proof {
                let word = self.words@[w as int];
                assert forall|i: int| 0 <= i < 64 implies #[trigger] bits_of(word)[i]
                    == self.cells()[64 * w + i] by {
                    let m = 64 * w + i;
                    assert(m / 64 == w && m % 64 == i);
                }
                lemma_ones_split(self.cells(), bits_of(word), 64 * w, 64);
                lemma_ones_monotone(self.cells(), 0, 64 * w + 64);
            }
            total = total + self.words[w].count_ones() as u64;
            w = w + 1;
        }
        total
    }
}

impl Clone for BitGrid {
    fn clone(&self) -> (r: Self)
        ensures
            r.spec_resolution() == self.spec_resolution(),
            r.cells() == self.cells(),
    {
        proof {
            use_type_invariant(self);
        }
        let words: Vec<u64> = self.words.clone();
        assert(words@ =~= self.words@);
        let ghost cells = Seq::new(64 * words@.len(), |i: int| bit(words@[i / 64], i % 64));
        assert(cells =~= self.cells());
        Self { resolution: self.resolution, words }
    }
}

impl OccupancyField for BitGrid {
    open spec fn grid(&self) -> Resolution {
        self.spec_resolution()
    }

    open spec fn occ(&self, c: VoxelCoord) -> bool {
        c.within(self.spec_resolution()) && self.cells()[linear(
            c,
            self.spec_resolution().side() as int,
        )]
    }

    open spec fn valid(&self) -> bool {
        true
    }

    fn resolution(&self) -> (r: Resolution) {
        proof {
            use_type_invariant(self);
        }
        self.resolution
    }

    fn is_occupied(&self, c: VoxelCoord) -> (r: bool) {
        match self.linear_index(c) {
            Some(i) => (self.words[(i / 64) as usize] >> (i % 64)) & 1 == 1,
            None => false,
        }
    }
}

/// A grid's volume is a multiple of 512, and at most `2⁶³` where one bit per
/// voxel fits in memory.
pub proof fn lemma_volume(resolution: Resolution)
    requires
        resolution.wf(),
    ensures
        volume(resolution) % 64 == 0,
        volume(resolution) >= 512,
        dense_fits(resolution) ==> volume(resolution) <= 0x8000_0000_0000_0000,
        dense_fits(resolution) ==> volume(resolution) / 64 <= usize::MAX,
{
    let k = resolution.levels() as nat;
    let m = pow4(k) as int;
    let n = resolution.side() as int;
    lemma_pow4_increases(0, k);
    assert(n * n * n == 512 * (m * m * m) && m * m * m >= 1) by (nonlinear_arith)
        requires
            n == 8 * m,
            m >= 1,
    ;
    if dense_fits(resolution) {
        if k >= 10 {
            lemma_pow4_increases(10, k);
            assert(pow4(10) == 0x10_0000) by {
                reveal_with_fuel(pow4, 11);
            }
            assert(m * m * m >= 0x10_0000 * 0x10_0000 * 0x10_0000) by (nonlinear_arith)
                requires
                    m >= 0x10_0000,
            ;
            assert(false);
        }
        lemma_pow4_increases(k, 9);
        assert(pow4(9) == 0x4_0000) by {
            reveal_with_fuel(pow4, 10);
        }
        assert(m * m * m <= 0x4_0000 * 0x4_0000 * 0x4_0000) by (nonlinear_arith)
            requires
                0 <= m <= 0x4_0000,
        ;
    }
}

/// Linear indices of in-bounds voxels lie in `0..n³`.
pub proof fn lemma_linear_range(c: VoxelCoord, n: int)
    ensures
        c.x < n && c.y < n && c.z < n ==> 0 <= linear(c, n) < n * n * n,
{
    let (x, y, z) = (c.x as int, c.y as int, c.z as int);
    if c.x < n && c.y < n && c.z < n {
        assert(0 <= y + n * z <= n * n - 1) by (nonlinear_arith)
            requires
                0 <= y < n,
                0 <= z < n,
        ;
        let q = y + n * z;
        assert(0 <= x + n * q < n * n * n) by (nonlinear_arith)
            requires
                0 <= x < n,
                0 <= q <= n * n - 1,
        ;
    }
}

/// Distinct in-bounds voxels have distinct linear indices.
pub proof fn lemma_linear_injective(c: VoxelCoord, d: VoxelCoord, n: int)
    requires
        c.x < n,
        c.y < n,
        c.z < n,
        d.x < n,
        d.y < n,
        d.z < n,
        linear(c, n) == linear(d, n),
    ensures
        c == d,
{
    let (qc, qd) = (c.y + n * c.z, d.y + n * d.z);
    lemma_mul_is_commutative(n, c.z as int);
    lemma_mul_is_commutative(n, d.z as int);
    lemma_mul_is_commutative(n, qc);
    lemma_mul_is_commutative(n, qd);
    lemma_fundamental_div_mod_converse(linear(c, n), n, qc, c.x as int);
    lemma_fundamental_div_mod_converse(linear(d, n), n, qd, d.x as int);
    lemma_fundamental_div_mod_converse(qc, n, c.z as int, c.y as int);
    lemma_fundamental_div_mod_converse(qd, n, d.z as int, d.y as int);
}

/// Every place below `n³` is the linear index of an in-bounds voxel.
proof fn lemma_linear_onto(i: int, n: int) -> (c: VoxelCoord)
    requires
        1 <= n <= u32::MAX,
        0 <= i < n * n * n,
    ensures
        c.x < n,
        c.y < n,
        c.z < n,
        linear(c, n) == i,
{
    let q = i / n;
    assert(0 <= q < n * n && i == n * q + i % n && 0 <= i % n < n) by (nonlinear_arith)
        requires
            1 <= n,
            0 <= i < n * n * n,
            q == i / n,
    ;
    assert(0 <= q / n < n && q == n * (q / n) + q % n && 0 <= q % n < n) by (nonlinear_arith)
        requires
            1 <= n,
            0 <= q < n * n,
    ;
    VoxelCoord { x: (i % n) as u32, y: (q % n) as u32, z: (q / n) as u32 }
}

/// A grid counts zero occupied voxels exactly when it holds none.
pub proof fn law_count_zero_iff_empty(g: BitGrid)
    requires
        g.wf(),
    ensures
        ones(g.cells(), volume(g.spec_resolution())) == 0 <==> forall|c: VoxelCoord|
            !#[trigger] g.occ(c),
{
    let n = g.spec_resolution().side() as int;
    lemma_volume(g.spec_resolution());
    lemma_ones_zero(g.cells(), volume(g.spec_resolution()));
    assert forall|c: VoxelCoord|
        ones(g.cells(), volume(g.spec_resolution())) == 0 implies !#[trigger] g.occ(c) by {
        lemma_linear_range(c, n);
    }
    if forall|c: VoxelCoord| !#[trigger] g.occ(c) {
        assert forall|i: int| 0 <= i < volume(g.spec_resolution()) implies !#[trigger] g.cells()[i] by {
            let c = lemma_linear_onto(i, n);
            assert(!g.occ(c));
        }
    }
}

/// The first voxel is the first bit.
proof fn lemma_linear_origin(n: int)
    ensures
        linear(VoxelCoord { x: 0, y: 0, z: 0 }, n) == 0,
{
    assert(n * (0 + n * 0) == 0) by (nonlinear_arith);
}

/// The grid's bits run along x first, then y, then z: the next voxel along x is
/// the next bit, along y a row on, along z a layer on.
pub proof fn law_bits_run_along_x(c: VoxelCoord, d: VoxelCoord, n: int)
    requires
        n >= 1,
    ensures
        d.x == c.x + 1 && d.y == c.y && d.z == c.z ==> linear(d, n) == linear(c, n) + 1,
        d.x == c.x && d.y == c.y + 1 && d.z == c.z ==> linear(d, n) == linear(c, n) + n,
        d.x == c.x && d.y == c.y && d.z == c.z + 1 ==> linear(d, n) == linear(c, n) + n * n,
        linear(VoxelCoord { x: 0, y: 0, z: 0 }, n) == 0,
{
    let (y, z) = (c.y as int, c.z as int);
    assert(n * ((y + 1) + n * z) == n * (y + n * z) + n && n * (y + n * (z + 1)) == n * (y + n * z)
        + n * n && n * (0 + n * 0) == 0) by (nonlinear_arith);
}

/// Setting or clearing a voxel touches that one alone, and none where it is out
/// of bounds. Clearing undoes setting.
pub proof fn law_grid_edits_one_voxel(
    a: &mut BitGrid,
    b: &mut BitGrid,
    c: VoxelCoord,
    d: VoxelCoord,
)
    requires
        call_ensures(BitGrid::set, (a, c), ()),
        call_ensures(BitGrid::clear, (b, c), ()),
    ensures
        final(a).edited(*old(a), c, true),
        final(b).edited(*old(b), c, false),
        c.within(old(a).spec_resolution()) ==> final(a).occ(c),
        c.within(old(b).spec_resolution()) ==> !final(b).occ(c),
        d != c ==> final(a).occ(d) == old(a).occ(d) && final(b).occ(d) == old(b).occ(d),
        *old(b) == *final(a) && !old(a).occ(c) ==> final(b).occ(d) == old(a).occ(d),
{
    assert(final(a).occ(d) == final(a).occ(d));
    assert(final(b).occ(d) == final(b).occ(d));
    assert(final(a).occ(c) == final(a).occ(c));
    assert(final(b).occ(c) == final(b).occ(c));
}

/// A new grid holds nothing, and one voxel more set is one more counted.
pub proof fn law_grid_counts_voxels(
    resolution: Resolution,
    blank: BitGrid,
    none: u64,
    g: &mut BitGrid,
    before: u64,
    after: u64,
    c: VoxelCoord,
)
    requires
        resolution.wf(),
        dense_fits(resolution),
        call_ensures(BitGrid::empty, (resolution,), blank),
        call_ensures(BitGrid::count_occupied, (&blank,), none),
        old(g).wf(),
        call_ensures(BitGrid::count_occupied, (&*old(g),), before),
        call_ensures(BitGrid::set, (g, c), ()),
        call_ensures(BitGrid::count_occupied, (&*final(g),), after),
    ensures
        none == 0,
        !blank.occ(c),
        after == before + if c.within(old(g).spec_resolution()) && !old(g).occ(c) {
            1int
        } else {
            0
        },
{
    let r = old(g).spec_resolution();
    let n = r.side() as int;
    lemma_volume(resolution);
    lemma_volume(r);
    lemma_ones_zero(blank.cells(), volume(resolution));
    lemma_linear_range(c, resolution.side() as int);
    if c.within(r) {
        lemma_linear_range(c, n);
        crate::bits::lemma_ones_update(old(g).cells(), linear(c, n), true, volume(r));
    }
}

/// A field's dense grid holds its voxels and no others; a grid made of raw words
/// reads bit `i` of them as voxel `i` in the grid's order.
pub proof fn law_grids_hold_their_source<F: OccupancyField>(
    field: &F,
    g: BitGrid,
    resolution: Resolution,
    words: Vec<u64>,
    h: BitGrid,
    c: VoxelCoord,
)
    requires
        field.valid(),
        dense_fits(field.grid()),
        call_ensures(BitGrid::from_field::<F>, (field,), g),
        resolution.wf(),
        dense_fits(resolution),
        words@.len() == volume(resolution) / 64,
        call_ensures(BitGrid::from_raw, (resolution, words), h),
    ensures
        g.occ(c) <==> c.within(field.grid()) && field.occ(c),
        c.within(resolution) ==> h.occ(c) == bit(
            words@[linear(c, resolution.side() as int) / 64],
            linear(c, resolution.side() as int) % 64,
        ),
{
    lemma_volume(resolution);
    lemma_linear_range(c, resolution.side() as int);
    assert(g.occ(c) == (c.within(field.grid()) && field.occ(c)));
}

} // verus!
