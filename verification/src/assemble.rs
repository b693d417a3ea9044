//! Building a tree: from a field, from enumerated bricks, from voxels.

use crate::coord::VoxelCoord;
use crate::layout::brick_code;
use crate::leaf::{lemma_view_len, LeafBrick};
use crate::levels::{ascending, build_levels, pow64};
use crate::morton::{self, law_morton_injective, lemma_local_range, local_index, morton, MAX_MORTON_COORD};
use crate::node::GpuNode;
use crate::occupancy::{lemma_linear_injective, lemma_linear_range, linear, OccupancyField};
use crate::palette::LEAF_VOXELS;
use crate::resolution::{lemma_pow4_increases, pow4, Resolution};
use crate::sparse::{codable, indexable, lemma_brick_bound, lemma_few_codes, lemma_same_voxel, lemma_slot, SparseTree};
use std::collections::HashMap;
use vstd::prelude::*;

verus! {

broadcast use {lemma_view_len, vstd::std_specs::hash::group_hash_axioms};

/// `slice::sort_unstable_by_key` by the first component: afterwards the same
/// pairs are there, in non-decreasing order of code.
#[verifier::external_body]
fn sort_by_code<T>(v: &mut Vec<(u64, T)>)
    ensures
        final(v)@.to_multiset() == old(v)@.to_multiset(),
        forall|i: int, j: int|
            0 <= i < j < final(v)@.len() ==> (#[trigger] final(v)@[i]).0 <= (#[trigger] final(v)@[j]).0,
{
    v.sort_unstable_by_key(|e| e.0);
}

/// No two pairs share a code.
pub open spec fn distinct_codes<T>(v: Seq<(u64, T)>) -> bool {
    forall|i: int, j: int| 0 <= i < j < v.len() ==> (#[trigger] v[i]).0 != (#[trigger] v[j]).0
}

/// The codes of a list of pairs.
pub open spec fn codes_of<T>(v: Seq<(u64, T)>) -> Seq<u64> {
    Seq::new(v.len(), |i: int| v[i].0)
}

/// Sorting pairs with distinct codes leaves the same pairs, strictly ascending.
proof fn lemma_sorted_distinct<T>(a: Seq<(u64, T)>, b: Seq<(u64, T)>)
    requires
        a.to_multiset() == b.to_multiset(),
        distinct_codes(a),
        forall|i: int, j: int| 0 <= i < j < b.len() ==> (#[trigger] b[i]).0 <= (#[trigger] b[j]).0,
    ensures
        a.len() == b.len(),
        ascending(codes_of(b)),
        forall|i: int| 0 <= i < a.len() ==> b.contains(#[trigger] a[i]),
        forall|i: int| 0 <= i < b.len() ==> a.contains(#[trigger] b[i]),
{
    broadcast use vstd::multiset::group_multiset_axioms;

    a.to_multiset_ensures();
    b.to_multiset_ensures();
    assert(a.no_duplicates());
    a.lemma_multiset_has_no_duplicates();
    b.lemma_multiset_has_no_duplicates_conv();
    assert forall|i: int| 0 <= i < a.len() implies b.contains(#[trigger] a[i]) by {
        assert(a.contains(a[i]));
        assert(a.to_multiset().count(a[i]) > 0);
    }
    assert forall|i: int| 0 <= i < b.len() implies a.contains(#[trigger] b[i]) by {
        assert(b.contains(b[i]));
        assert(b.to_multiset().count(b[i]) > 0);
    }
    assert forall|i: int, j: int| 0 <= i < j < b.len() implies codes_of(b)[i] < codes_of(b)[j] by {
        if b[i].0 == b[j].0 {
            assert(a.contains(b[i]));
            assert(a.contains(b[j]));
            let p = choose|p: int| 0 <= p < a.len() && a[p] == b[i];
            let q = choose|q: int| 0 <= q < a.len() && a[q] == b[j];
            assert(b[i] != b[j]);
            if p < q {
                assert(a[p].0 != a[q].0);
            } else {
                assert(a[q].0 != a[p].0);
            }
        }
    }
}

/// Every material is the default.
pub open spec fn uncolored(t: SparseTree) -> bool {
    forall|i: int, m: int|
        0 <= i < t.materials@.len() && 0 <= m < 512 ==> #[trigger] t.materials@[i]@[m] == 0
}

/// The pairs can be the bricks of a tree over `resolution`: distinct codes
/// within the grid and the Morton codec, few enough for `u32` indices.
pub open spec fn bricks_ok<T>(resolution: Resolution, bricks: Seq<(u64, T)>) -> bool {
    &&& indexable(resolution, bricks.len())
    &&& distinct_codes(bricks)
    &&& forall|i: int|
        0 <= i < bricks.len() ==> (#[trigger] bricks[i]).0 < 0x8000_0000_0000_0000 && bricks[i].0
            < pow64(resolution.levels() as nat)
}

/// The tree's bricks are exactly these.
pub open spec fn holds_bricks(t: SparseTree, bricks: Seq<(u64, LeafBrick)>) -> bool {
    &&& t.codes@.len() == bricks.len()
    &&& forall|i: int|
        0 <= i < bricks.len() ==> t.has_brick((#[trigger] bricks[i]).0 as int) && t.leaves@[t.slot(
            bricks[i].0 as int,
        )] == bricks[i].1
    &&& forall|i: int|
        0 <= i < t.codes@.len() ==> bricks.contains((#[trigger] t.codes@[i], t.leaves@[i]))
}

/// The tree assembled from these bricks: no more, no less, with default
/// materials.
pub open spec fn assembled(
    t: SparseTree,
    resolution: Resolution,
    bricks: Seq<(u64, LeafBrick)>,
) -> bool {
    &&& t.wf()
    &&& t.resolution == resolution
    &&& t.topo_gen == 0
    &&& holds_bricks(t, bricks)
    &&& uncolored(t)
    &&& (forall|i: int| 0 <= i < bricks.len() ==> !(#[trigger] bricks[i]).1.vacant())
        ==> t.compact()
}

/// The tree built from a field: exactly its occupied voxels, with default
/// materials and no empty brick.
pub open spec fn built_from<F: OccupancyField>(t: SparseTree, field: &F) -> bool {
    &&& t.wf()
    &&& t.compact()
    &&& t.resolution == field.grid()
    &&& t.topo_gen == 0
    &&& uncolored(t)
    &&& forall|c: VoxelCoord|
        #[trigger] t.occupied(c) == (c.within(field.grid()) && field.occ(c))
}

impl SparseTree {
    /// Assembles the sparse hierarchy from already-enumerated occupied bricks:
    /// `(Morton code, leaf)` pairs in any order, where the code is that of the
    /// brick's coordinate. Materials start out default.
    #[must_use]
    pub fn from_bricks(resolution: Resolution, bricks: Vec<(u64, LeafBrick)>) -> (r: Self)
        requires
            bricks_ok(resolution, bricks@),
        ensures
            assembled(r, resolution, bricks@),
    {
        let k: u32 = resolution.internal_levels();
        let ghost given = bricks@;
        let mut bricks: Vec<(u64, LeafBrick)> = bricks;
        sort_by_code(&mut bricks);
        let ghost sorted = bricks@;
        proof {
            lemma_sorted_distinct(given, sorted);
        }
        let mut leaves: Vec<LeafBrick> = Vec::new();
        let mut codes: Vec<u64> = Vec::new();
        let mut materials: Vec<Box<[u16; LEAF_VOXELS]>> = Vec::new();
        let mut i: usize = 0;
        while i < bricks.len()
            invariant
                i <= sorted.len(),
                bricks@ == sorted,
                leaves@.len() == i,
                codes@.len() == i,
                materials@.len() == i,
                forall|j: int|
                    #![trigger codes@[j]]
                    #![trigger leaves@[j]]
                    0 <= j < i ==> sorted[j] == (codes@[j], leaves@[j]),
                forall|j: int, m: int|
                    0 <= j < i && 0 <= m < 512 ==> #[trigger] materials@[j]@[m] == 0,
            decreases bricks.len() - i,
        {
            leaves.push(bricks[i].1);
            codes.push(bricks[i].0);
            materials.push(Box::new([0u16;LEAF_VOXELS]));
            i = i + 1;
        }
        proof {
            assert(codes@ =~= codes_of(sorted));
            assert forall|j: int| 0 <= j < codes@.len() implies (#[trigger] codes@[j])
                < 0x8000_0000_0000_0000 && codes@[j] < pow64(resolution.levels() as nat) by {
                assert(given.contains(sorted[j]));
            }
            if resolution.levels() <= 5 {
                lemma_few_codes(codes@, resolution.levels() as nat);
            }
        }
        let nodes: Vec<Vec<GpuNode>> = build_levels(k, &codes);
        let r = Self { resolution, nodes, leaves, codes, topo_gen: 0, materials };
        proof {
            assert forall|j: int| 0 <= j < given.len() implies r.has_brick(
                (#[trigger] given[j]).0 as int,
            ) && r.leaves@[r.slot(given[j].0 as int)] == given[j].1 by {
                assert(sorted.contains(given[j]));
                let p = choose|p: int| 0 <= p < sorted.len() && sorted[p] == given[j];
                lemma_slot(r, p);
                assert(r.codes@[p] == given[j].0);
            }
            assert forall|j: int| 0 <= j < r.codes@.len() implies given.contains(
                (#[trigger] r.codes@[j], r.leaves@[j]),
            ) by {
                assert(given.contains(sorted[j]));
            }
            if forall|j: int| 0 <= j < given.len() ==> !(#[trigger] given[j]).1.vacant() {
                assert forall|j: int| 0 <= j < r.leaves@.len() implies !(
                #[trigger] r.leaves@[j]).vacant() by {
                    assert(given.contains(sorted[j]));
                    let p = choose|p: int| 0 <= p < given.len() && given[p] == sorted[j];
                    assert(!given[p].1.vacant());
                }
            }
        }
        r
    }
}

/// The voxel `(lx, ly, lz)` of brick `b`.
pub open spec fn voxel_of(b: VoxelCoord, lx: u32, ly: u32, lz: u32) -> VoxelCoord {
    VoxelCoord { x: (8 * b.x + lx) as u32, y: (8 * b.y + ly) as u32, z: (8 * b.z + lz) as u32 }
}

/// `leaf` is the field's occupancy over brick `b`.
pub open spec fn scans<F: OccupancyField>(field: &F, b: VoxelCoord, leaf: LeafBrick) -> bool {
    forall|lx: u32, ly: u32, lz: u32|
        lx < 8 && ly < 8 && lz < 8 ==> #[trigger] leaf.occ(lx, ly, lz) == (voxel_of(
            b,
            lx,
            ly,
            lz,
        ).within(field.grid()) && field.occ(voxel_of(b, lx, ly, lz)))
}

/// Some voxel of brick `b` is occupied.
pub open spec fn brick_occupied<F: OccupancyField>(field: &F, b: VoxelCoord) -> bool {
    exists|lx: u32, ly: u32, lz: u32|
        lx < 8 && ly < 8 && lz < 8 && voxel_of(b, lx, ly, lz).within(field.grid()) && #[trigger]
            field.occ(voxel_of(b, lx, ly, lz))
}

/// The brick at place `t` of an `m³` grid of bricks, in `z, y, x` order.
pub open spec fn brick_at(t: int, m: int) -> VoxelCoord {
    VoxelCoord { x: (t % m) as u32, y: (t / m % m) as u32, z: (t / m / m) as u32 }
}

/// How many of the bricks at places `a..b` are occupied.
pub open spec fn occupied_bricks<F: OccupancyField>(field: &F, m: int, a: int, b: int) -> nat
    decreases b - a,
{
    if b <= a {
        0
    } else {
        occupied_bricks(field, m, a, b - 1) + if brick_occupied(field, brick_at(b - 1, m)) {
            1nat
        } else {
            0nat
        }
    }
}

/// `out` lists the occupied bricks at places `a..t`, in order: `at` says which
/// brick each entry is.
pub open spec fn lists<F: OccupancyField>(
    field: &F,
    out: Seq<(u64, LeafBrick)>,
    at: Seq<VoxelCoord>,
    m: int,
    a: int,
    t: int,
) -> bool {
    &&& at.len() == out.len()
    &&& out.len() == occupied_bricks(field, m, a, t)
    &&& forall|i: int|
        #![trigger at[i]]
        #![trigger out[i]]
        0 <= i < out.len() ==> {
            &&& at[i].x < m && at[i].y < m && at[i].z < m
            &&& a <= linear(at[i], m) < t
            &&& out[i].0 == morton(at[i].x as nat, at[i].y as nat, at[i].z as nat)
            &&& scans(field, at[i], out[i].1)
            &&& !out[i].1.vacant()
        }
    &&& forall|i: int, j: int|
        0 <= i < j < at.len() ==> linear(#[trigger] at[i], m) < linear(#[trigger] at[j], m)
    &&& forall|b: VoxelCoord|
        b.x < m && b.y < m && b.z < m && a <= linear(b, m) < t && #[trigger] brick_occupied(
            field,
            b,
        ) ==> at.contains(b)
}

/// The field's answer for a voxel of brick `b`.
spec fn answer<F: OccupancyField>(field: &F, b: VoxelCoord, lx: u32, ly: u32, lz: u32) -> bool {
    voxel_of(b, lx, ly, lz).within(field.grid()) && field.occ(voxel_of(b, lx, ly, lz))
}

/// The first `t` voxels of brick `b` in `z, y, x` order are scanned into `leaf`.
spec fn scanned<F: OccupancyField>(field: &F, b: VoxelCoord, leaf: LeafBrick, t: int) -> bool {
    forall|lx: u32, ly: u32, lz: u32|
        lx < 8 && ly < 8 && lz < 8 ==> #[trigger] leaf.occ(lx, ly, lz) == (lx + 8 * ly + 64 * lz < t
            && answer(field, b, lx, ly, lz))
}

proof fn lemma_scan_step<F: OccupancyField>(
    field: &F,
    b: VoxelCoord,
    before: LeafBrick,
    after: LeafBrick,
    lx: u32,
    ly: u32,
    lz: u32,
)
    requires
        lx < 8,
        ly < 8,
        lz < 8,
        scanned(field, b, before, lx + 8 * ly + 64 * lz),
        after@ == if answer(field, b, lx, ly, lz) {
            before@.update(local_index(lx, ly, lz), true)
        } else {
            before@
        },
    ensures
        scanned(field, b, after, lx + 8 * ly + 64 * lz + 1),
{
    let t = lx + 8 * ly + 64 * lz;
    lemma_local_range(lx, ly, lz);
    assert forall|p: u32, q: u32, s: u32| p < 8 && q < 8 && s < 8 implies #[trigger] after.occ(
        p,
        q,
        s,
    ) == (p + 8 * q + 64 * s < t + 1 && answer(field, b, p, q, s)) by {
        lemma_local_range(p, q, s);
        assert(before.occ(p, q, s) == (p + 8 * q + 64 * s < t && answer(field, b, p, q, s)));
        if local_index(p, q, s) == local_index(lx, ly, lz) {
            law_morton_injective(p as nat, q as nat, s as nat, lx as nat, ly as nat, lz as nat);
        }
        if p + 8 * q + 64 * s == t {
            assert(p == lx && q == ly && s == lz);
        }
    }
}

/// Scans one brick of a field.
pub(crate) fn scan_brick<F: OccupancyField>(field: &F, bx: u32, by: u32, bz: u32) -> (leaf: LeafBrick)
    requires
        field.valid(),
        bx <= MAX_MORTON_COORD,
        by <= MAX_MORTON_COORD,
        bz <= MAX_MORTON_COORD,
    ensures
        scans(field, VoxelCoord { x: bx, y: by, z: bz }, leaf),
        leaf.vacant() <==> !brick_occupied(field, VoxelCoord { x: bx, y: by, z: bz }),
{
    let ghost b = VoxelCoord { x: bx, y: by, z: bz };
    let mut leaf: LeafBrick = LeafBrick::empty();
    proof {
        assert forall|lx: u32, ly: u32, lz: u32| lx < 8 && ly < 8 && lz < 8 implies !(
        #[trigger] leaf.occ(lx, ly, lz)) by {
            lemma_local_range(lx, ly, lz);
        }
    }
    let mut t: u32 = 0;
    while t < 512
        invariant
            t <= 512,
            field.valid(),
            b == (VoxelCoord { x: bx, y: by, z: bz }),
            bx <= MAX_MORTON_COORD,
            by <= MAX_MORTON_COORD,
            bz <= MAX_MORTON_COORD,
            scanned(field, b, leaf, t as int),
        decreases 512 - t,
    {
        let (lx, ly, lz) = (t % 8, t / 8 % 8, t / 64);
        let c = VoxelCoord::new(bx * 8 + lx, by * 8 + ly, bz * 8 + lz);
        let ghost before = leaf;
        assert(c == voxel_of(b, lx, ly, lz));
        if field.is_occupied(c) {
            leaf.set_local(lx, ly, lz);
        }
        proof {
            assert(lx + 8 * ly + 64 * lz == t);
            lemma_scan_step(field, b, before, leaf, lx, ly, lz);
        }
        t = t + 1;
    }
    proof {
        lemma_scan_done(field, b, leaf);
    }
    leaf
}

proof fn lemma_scan_done<F: OccupancyField>(field: &F, b: VoxelCoord, leaf: LeafBrick)
    requires
        scanned(field, b, leaf, 512),
    ensures
        scans(field, b, leaf),
        leaf.vacant() <==> !brick_occupied(field, b),
{
    assert forall|lx: u32, ly: u32, lz: u32|
        lx < 8 && ly < 8 && lz < 8 implies #[trigger] leaf.occ(lx, ly, lz) == answer(
        field,
        b,
        lx,
        ly,
        lz,
    ) by {
        assert(lx + 8 * ly + 64 * lz < 512);
    }
    if brick_occupied(field, b) {
        let (lx, ly, lz) = choose|lx: u32, ly: u32, lz: u32|
            lx < 8 && ly < 8 && lz < 8 && voxel_of(b, lx, ly, lz).within(field.grid())
                && #[trigger] field.occ(voxel_of(b, lx, ly, lz));
        lemma_local_range(lx, ly, lz);
        assert(leaf.occ(lx, ly, lz));
        assert(leaf@[local_index(lx, ly, lz)]);
    }
    if !leaf.vacant() {
        let m = choose|m: int| 0 <= m < 512 && #[trigger] leaf@[m];
        let l = crate::morton::lemma_local_onto(m);
        assert(leaf.occ(l.x, l.y, l.z));
        assert(field.occ(voxel_of(b, l.x, l.y, l.z)));
    }
}

/// The brick at a place is the one with that linear index.
pub proof fn lemma_brick_at(b: VoxelCoord, m: int)
    requires
        b.x < m,
        b.y < m,
        b.z < m,
    ensures
        brick_at(linear(b, m), m) == b,
{
    let q = b.y + m * b.z;
    vstd::arithmetic::mul::lemma_mul_is_commutative(m, q);
    vstd::arithmetic::mul::lemma_mul_is_commutative(m, b.z as int);
    vstd::arithmetic::div_mod::lemma_fundamental_div_mod_converse(linear(b, m), m, q, b.x as int);
    vstd::arithmetic::div_mod::lemma_fundamental_div_mod_converse(q, m, b.z as int, b.y as int);
}

/// One more brick scanned.
proof fn lemma_lists_step<F: OccupancyField>(
    field: &F,
    out0: Seq<(u64, LeafBrick)>,
    at0: Seq<VoxelCoord>,
    out1: Seq<(u64, LeafBrick)>,
    at1: Seq<VoxelCoord>,
    b: VoxelCoord,
    leaf: LeafBrick,
    m: int,
    a: int,
)
    requires
        b.x < m,
        b.y < m,
        b.z < m,
        a <= linear(b, m),
        lists(field, out0, at0, m, a, linear(b, m)),
        scans(field, b, leaf),
        leaf.vacant() <==> !brick_occupied(field, b),
        leaf.vacant() ==> out1 == out0 && at1 == at0,
        !leaf.vacant() ==> out1 == out0.push(
            (morton(b.x as nat, b.y as nat, b.z as nat) as u64, leaf),
        ) && at1 == at0.push(b),
        morton(b.x as nat, b.y as nat, b.z as nat) < 0x8000_0000_0000_0000,
    ensures
        lists(field, out1, at1, m, a, linear(b, m) + 1),
{
    let t = linear(b, m);
    lemma_brick_at(b, m);
    assert forall|d: VoxelCoord|
        d.x < m && d.y < m && d.z < m && a <= linear(d, m) < t + 1 && #[trigger] brick_occupied(
            field,
            d,
        ) implies at1.contains(d) by {
        if linear(d, m) == t {
            lemma_linear_injective(d, b, m);
            assert(at1[at1.len() - 1] == b);
        } else {
            assert(at0.contains(d));
            let i = choose|i: int| 0 <= i < at0.len() && at0[i] == d;
            assert(at1[i] == d);
        }
    }
    assert(at1.len() == out1.len());
    assert(out1.len() == occupied_bricks(field, m, a, t + 1));
    assert forall|i: int, j: int| 0 <= i < j < at1.len() implies linear(#[trigger] at1[i], m)
        < linear(#[trigger] at1[j], m) by {
        if j < at0.len() {
            assert(at0[i] == at1[i] && at0[j] == at1[j]);
        } else {
            assert(at0[i] == at1[i]);
        }
    }
    assert forall|i: int|
        #![trigger at1[i]]
        #![trigger out1[i]]
        0 <= i < out1.len() implies {
        &&& at1[i].x < m && at1[i].y < m && at1[i].z < m
        &&& a <= linear(at1[i], m) < t + 1
        &&& out1[i].0 == morton(at1[i].x as nat, at1[i].y as nat, at1[i].z as nat)
        &&& scans(field, at1[i], out1[i].1)
        &&& !out1[i].1.vacant()
    } by {
        if i < out0.len() {
            assert(at0[i] == at1[i] && out0[i] == out1[i]);
        }
    }
}

/// Enumerates occupied bricks in the z-slab `[bz_lo, bz_hi)` of a grid of
/// `bpa³` bricks: the unit of work of a build's scan.
pub fn enumerate_slab<F: OccupancyField>(
    field: &F,
    bpa: u32,
    bz_lo: u32,
    bz_hi: u32,
) -> (out: Vec<(u64, LeafBrick)>)
    requires
        field.valid(),
        bpa <= MAX_MORTON_COORD,
        bz_hi <= bpa,
    ensures
        bz_lo <= bz_hi ==> exists|at: Seq<VoxelCoord>| #[trigger]
            lists(
                field,
                out@,
                at,
                bpa as int,
                linear(VoxelCoord { x: 0, y: 0, z: bz_lo }, bpa as int),
                linear(VoxelCoord { x: 0, y: 0, z: bz_hi }, bpa as int),
            ),
        bz_lo > bz_hi ==> out@.len() == 0,
{
    let mut out: Vec<(u64, LeafBrick)> = Vec::new();
    let ghost mut at: Seq<VoxelCoord> = Seq::empty();
    let ghost m = bpa as int;
    let ghost a = linear(VoxelCoord { x: 0, y: 0, z: bz_lo }, m);
    let mut bz: u32 = bz_lo;
    while bz < bz_hi
        invariant
            field.valid(),
            m == bpa,
            bpa <= MAX_MORTON_COORD,
            bz_hi <= bpa,
            bz_lo <= bz,
            bz_lo <= bz_hi ==> bz <= bz_hi,
            bz_lo > bz_hi ==> out@.len() == 0,
            a == linear(VoxelCoord { x: 0, y: 0, z: bz_lo }, m),
            lists(field, out@, at, m, a, linear(VoxelCoord { x: 0, y: 0, z: bz }, m)),
        decreases bz_hi - bz,
    {
        let mut by: u32 = 0;
        while by < bpa
            invariant
                field.valid(),
                m == bpa,
                bpa <= MAX_MORTON_COORD,
                bz_lo <= bz < bpa,
                by <= bpa,
                a == linear(VoxelCoord { x: 0, y: 0, z: bz_lo }, m),
                lists(field, out@, at, m, a, linear(VoxelCoord { x: 0, y: by, z: bz }, m)),
            decreases bpa - by,
        {
            let mut bx: u32 = 0;
            while bx < bpa
                invariant
                    field.valid(),
                    m == bpa,
                    bpa <= MAX_MORTON_COORD,
                    bz_lo <= bz < bpa,
                    by < bpa,
                    bx <= bpa,
                    a == linear(VoxelCoord { x: 0, y: 0, z: bz_lo }, m),
                    lists(field, out@, at, m, a, linear(VoxelCoord { x: bx, y: by, z: bz }, m)),
                decreases bpa - bx,
            {
                let leaf: LeafBrick = scan_brick(field, bx, by, bz);
                let ghost b = VoxelCoord { x: bx, y: by, z: bz };
                let ghost (out0, at0) = (out@, at);
                let code: u64 = morton::encode(bx, by, bz);
                if !leaf.is_empty() {
                    out.push((code, leaf));
                    proof {
                        at = at.push(b);
                    }
                }
                proof {
                    assert(a <= linear(b, m)) by (nonlinear_arith)
                        requires
                            a == 0 + m * (0 + m * bz_lo),
                            linear(b, m) == bx + m * (by + m * bz),
                            bz_lo <= bz,
                            0 <= bx,
                            0 <= by,
                            0 <= m,
                    ;
                    lemma_lists_step(field, out0, at0, out@, at, b, leaf, m, a);
                }
                bx = bx + 1;
            }
            proof {
                assert(linear(VoxelCoord { x: bpa, y: by, z: bz }, m) == linear(
                    VoxelCoord { x: 0, y: (by + 1) as u32, z: bz },
                    m,
                )) by (nonlinear_arith)
                    requires
                        by < u32::MAX,
                        m == bpa,
                ;
            }
            by = by + 1;
        }
        proof {
            assert(linear(VoxelCoord { x: 0, y: bpa, z: bz }, m) == linear(
                VoxelCoord { x: 0, y: 0, z: (bz + 1) as u32 },
                m,
            )) by (nonlinear_arith)
                requires
                    bz < u32::MAX,
                    m == bpa,
            ;
        }
        bz = bz + 1;
    }
    out
}

/// Listed bricks have distinct codes within the grid, and among them hold every
/// occupied voxel of their places.
proof fn lemma_listed_ok<F: OccupancyField>(
    field: &F,
    out: Seq<(u64, LeafBrick)>,
    at: Seq<VoxelCoord>,
    resolution: Resolution,
    m: int,
    t: int,
)
    requires
        resolution.wf(),
        m == pow4(resolution.levels() as nat),
        m <= MAX_MORTON_COORD,
        lists(field, out, at, m, 0, t),
        indexable(resolution, out.len()),
    ensures
        bricks_ok(resolution, out),
{
    assert forall|i: int, j: int| 0 <= i < j < out.len() implies (#[trigger] out[i]).0 != (
    #[trigger] out[j]).0 by {
        assert(linear(at[i], m) < linear(at[j], m));
        if out[i].0 == out[j].0 {
            law_morton_injective(
                at[i].x as nat,
                at[i].y as nat,
                at[i].z as nat,
                at[j].x as nat,
                at[j].y as nat,
                at[j].z as nat,
            );
        }
    }
    assert forall|i: int| 0 <= i < out.len() implies (#[trigger] out[i]).0 < 0x8000_0000_0000_0000
        && out[i].0 < pow64(resolution.levels() as nat) by {
        assert(at[i].x < m);
        lemma_brick_bound(
            at[i].x as nat,
            at[i].y as nat,
            at[i].z as nat,
            resolution.levels() as nat,
        );
        lemma_codec_bound(at[i].x as nat, at[i].y as nat, at[i].z as nat);
    }
}

/// Codes of coordinates within the codec fit 63 bits.
proof fn lemma_codec_bound(x: nat, y: nat, z: nat)
    requires
        x <= MAX_MORTON_COORD,
        y <= MAX_MORTON_COORD,
        z <= MAX_MORTON_COORD,
    ensures
        morton(x, y, z) < 0x8000_0000_0000_0000,
{
    crate::morton::lemma_codec_range(x as u32, y as u32, z as u32);
}

impl SparseTree {
    /// Builds the sparse hierarchy from an occupancy field: enumerate the
    /// occupied bricks, sort them, build the internal levels.
    ///
    /// The Morton codec covers up to ten internal levels, and `u32` indices up
    /// to `2³²` bricks.
    #[must_use]
    pub fn build<F: OccupancyField>(field: &F) -> (r: Self)
        requires
            field.valid(),
            field.grid().levels() <= 10,
            ({
                let m = pow4(field.grid().levels() as nat) as int;
                indexable(field.grid(), occupied_bricks(field, m, 0, m * m * m))
            }),
        ensures
            built_from(r, field),
    {
        let resolution: Resolution = field.resolution();
        let bpa: u32 = resolution.voxels_per_axis() / 8;
        let ghost m = bpa as int;
        proof {
            let k = resolution.levels() as nat;
            lemma_pow4_increases(k, 10);
            assert(pow4(10) == 0x10_0000) by {
                reveal_with_fuel(pow4, 11);
            }
            assert(m == pow4(k));
            assert(linear(VoxelCoord { x: 0, y: 0, z: 0 }, m) == 0) by (nonlinear_arith);
            assert(linear(VoxelCoord { x: 0, y: 0, z: bpa }, m) == m * m * m) by (nonlinear_arith)
                requires
                    m == bpa,
            ;
        }
        let bricks: Vec<(u64, LeafBrick)> = enumerate_slab(field, bpa, 0, bpa);
        let ghost given = bricks@;
        let ghost at = choose|at: Seq<VoxelCoord>| #[trigger]
            lists(field, given, at, m, 0, m * m * m);
        proof {
            lemma_listed_ok(field, given, at, resolution, m, m * m * m);
            assert forall|i: int| 0 <= i < given.len() implies !(
            #[trigger] given[i]).1.vacant() by {
                assert(at[i].x < m);
            }
        }
        let r = Self::from_bricks(resolution, bricks);
        proof {
            assert forall|c: VoxelCoord| #[trigger] r.occupied(c) == (c.within(field.grid())
                && field.occ(c)) by {
                if c.within(field.grid()) {
                    lemma_built(field, r, given, at, m, c);
                }
            }
        }
        r
    }
}

/// A tree over the listed bricks of a whole grid has the field's voxels.
proof fn lemma_built<F: OccupancyField>(
    field: &F,
    r: SparseTree,
    given: Seq<(u64, LeafBrick)>,
    at: Seq<VoxelCoord>,
    m: int,
    c: VoxelCoord,
)
    requires
        r.wf(),
        r.resolution == field.grid(),
        m == pow4(field.grid().levels() as nat),
        m <= MAX_MORTON_COORD,
        lists(field, given, at, m, 0, m * m * m),
        holds_bricks(r, given),
        c.within(field.grid()),
    ensures
        r.occupied(c) == field.occ(c),
{
    let b = VoxelCoord { x: c.x / 8, y: c.y / 8, z: c.z / 8 };
    let (lx, ly, lz) = (c.x % 8, c.y % 8, c.z % 8);
    assert(c.x < 8 * m && c.y < 8 * m && c.z < 8 * m);
    lemma_linear_range(b, m);
    assert(voxel_of(b, lx, ly, lz) == c) by {
        assert(c.x == 8 * (c.x / 8) + c.x % 8);
        assert(c.y == 8 * (c.y / 8) + c.y % 8);
        assert(c.z == 8 * (c.z / 8) + c.z % 8);
    }
    let code = brick_code(c) as int;
    assert(c.x % 8 % 8 == c.x % 8 && c.y % 8 % 8 == c.y % 8 && c.z % 8 % 8 == c.z % 8);
    if r.has_brick(code) {
        let s = r.slot(code);
        assert(given.contains((r.codes@[s], r.leaves@[s])));
        let i = choose|i: int| 0 <= i < given.len() && given[i] == (r.codes@[s], r.leaves@[s]);
        assert(at[i].x < m);
        law_morton_injective(
            at[i].x as nat,
            at[i].y as nat,
            at[i].z as nat,
            b.x as nat,
            b.y as nat,
            b.z as nat,
        );
        assert(scans(field, b, r.leaves@[s]));
        assert(r.leaves@[s].occ(lx, ly, lz) == field.occ(c));
        assert(local_index(lx, ly, lz) == local_index(c.x, c.y, c.z));
    } else if field.occ(c) {
        assert(field.occ(voxel_of(b, lx, ly, lz)));
        assert(brick_occupied(field, b));
        assert(at.contains(b));
        let i = choose|i: int| 0 <= i < at.len() && at[i] == b;
        assert(given[i].0 == code);
        assert(r.has_brick(given[i].0 as int));
    }
}

/// The slab `t` of `threads` that share the `bpa` brick layers of a grid.
pub open spec fn slab(bpa: int, threads: int, t: int) -> (int, int) {
    let chunk = (bpa + threads - 1) / threads;
    (t * chunk, if (t + 1) * chunk < bpa {
        (t + 1) * chunk
    } else {
        bpa
    })
}

/// The brick layers `[lo, hi)` that worker `t` of `threads` scans.
pub fn slab_bounds(bpa: u32, threads: u32, t: u32) -> (r: (u32, u32))
    requires
        1 <= threads <= bpa,
        t < threads,
        bpa <= 0x1000_0000,
    ensures
        (r.0 as int, r.1 as int) == slab(bpa as int, threads as int, t as int),
        r.1 <= bpa,
{
    let chunk: u32 = (bpa + threads - 1) / threads;
    proof {
        lemma_chunk(bpa as int, threads as int, t as int);
    }
    let lo: u32 = t * chunk;
    let end: u32 = (t + 1) * chunk;
    (lo, if end < bpa {
        end
    } else {
        bpa
    })
}

proof fn lemma_chunk(bpa: int, threads: int, t: int)
    requires
        1 <= threads <= bpa,
        0 <= t < threads,
    ensures
        ({
            let chunk = (bpa + threads - 1) / threads;
            &&& chunk >= 1
            &&& threads * chunk >= bpa
            &&& 0 <= t * chunk <= (t + 1) * chunk
            &&& (t + 1) * chunk <= bpa + threads - 1
        }),
{
    let x = bpa + threads - 1;
    let chunk = x / threads;
    vstd::arithmetic::div_mod::lemma_fundamental_div_mod(x, threads);
    assert(chunk >= 1 && threads * chunk >= bpa && 0 <= t * chunk <= (t + 1) * chunk && (t + 1)
        * chunk <= x) by (nonlinear_arith)
        requires
            x == threads * chunk + x % threads,
            0 <= x % threads < threads,
            1 <= threads <= bpa,
            x == bpa + threads - 1,
            0 <= t < threads,
    ;
}

/// The slabs partition the brick layers: each layer is in exactly one.
pub proof fn law_slabs_partition(bpa: int, threads: int, z: int)
    requires
        1 <= threads <= bpa,
        0 <= z < bpa,
    ensures
        exists|t: int|
            0 <= t < threads && (#[trigger] slab(bpa, threads, t)).0 <= z < slab(
                bpa,
                threads,
                t,
            ).1,
        forall|s: int, t: int|
            0 <= s < threads && 0 <= t < threads && (#[trigger] slab(bpa, threads, s)).0 <= z < slab(
                bpa,
                threads,
                s,
            ).1 && (#[trigger] slab(bpa, threads, t)).0 <= z < slab(bpa, threads, t).1 ==> s == t,
{
    let chunk = (bpa + threads - 1) / threads;
    lemma_chunk(bpa, threads, 0);
    let t = z / chunk;
    vstd::arithmetic::div_mod::lemma_fundamental_div_mod(z, chunk);
    assert(0 <= t < threads && t * chunk <= z < (t + 1) * chunk) by (nonlinear_arith)
        requires
            z == chunk * t + z % chunk,
            0 <= z % chunk < chunk,
            0 <= z < bpa,
            threads * chunk >= bpa,
            chunk >= 1,
    ;
    assert(slab(bpa, threads, t).0 <= z < slab(bpa, threads, t).1);
    assert forall|p: int, q: int|
        0 <= p < threads && 0 <= q < threads && (#[trigger] slab(bpa, threads, p)).0 <= z < slab(
            bpa,
            threads,
            p,
        ).1 && (#[trigger] slab(bpa, threads, q)).0 <= z < slab(
            bpa,
            threads,
            q,
        ).1 implies p == q by {
        assert(p == q) by (nonlinear_arith)
            requires
                p * chunk <= z < (p + 1) * chunk,
                q * chunk <= z < (q + 1) * chunk,
                chunk >= 1,
        ;
    }
}

/// The last id given to voxel `d` among the first `n` pairs.
pub open spec fn last_id(voxels: Seq<(VoxelCoord, u16)>, d: VoxelCoord, n: int) -> Option<u16>
    decreases n,
{
    if n <= 0 {
        None
    } else if voxels[n - 1].0 == d {
        Some(voxels[n - 1].1)
    } else {
        last_id(voxels, d, n - 1)
    }
}

/// One of the first `n` pairs is in bounds in the brick with this code.
pub open spec fn touches(
    voxels: Seq<(VoxelCoord, u16)>,
    resolution: Resolution,
    n: int,
    code: int,
) -> bool {
    exists|j: int|
        0 <= j < n && (#[trigger] voxels[j]).0.within(resolution) && brick_code(voxels[j].0) == code
}

/// Pair `i` is the first in bounds in its brick.
pub open spec fn opens_brick(
    voxels: Seq<(VoxelCoord, u16)>,
    resolution: Resolution,
    i: int,
) -> bool {
    voxels[i].0.within(resolution) && !touches(
        voxels,
        resolution,
        i,
        brick_code(voxels[i].0) as int,
    )
}

/// How many bricks the first `n` pairs lie in.
pub open spec fn brick_total(
    voxels: Seq<(VoxelCoord, u16)>,
    resolution: Resolution,
    n: int,
) -> nat
    decreases n,
{
    if n <= 0 {
        0
    } else {
        brick_total(voxels, resolution, n - 1) + if opens_brick(voxels, resolution, n - 1) {
            1nat
        } else {
            0nat
        }
    }
}

/// What a brick of the bins says of its voxel `d`.
spec fn binned(leaf: LeafBrick, grid: Seq<u16>, d: VoxelCoord) -> Option<u16> {
    if leaf.occ(d.x, d.y, d.z) {
        Some(grid[local_index(d.x, d.y, d.z)])
    } else {
        None
    }
}

/// The code is in the list.
spec fn lists_code(codes: Seq<u64>, code: int) -> bool {
    exists|e: int| 0 <= e < codes.len() && #[trigger] codes[e] == code
}

/// One more pair touches its own brick, if in bounds, and no other.
proof fn lemma_touches_step(
    voxels: Seq<(VoxelCoord, u16)>,
    resolution: Resolution,
    t: int,
    code: int,
)
    requires
        0 <= t < voxels.len(),
    ensures
        touches(voxels, resolution, t + 1, code) <==> touches(voxels, resolution, t, code) || (
        voxels[t].0.within(resolution) && brick_code(voxels[t].0) == code),
{
    if touches(voxels, resolution, t, code) {
        let j = choose|j: int|
            0 <= j < t && (#[trigger] voxels[j]).0.within(resolution) && brick_code(voxels[j].0)
                == code;
        assert(voxels[j].0.within(resolution));
    }
    if voxels[t].0.within(resolution) && brick_code(voxels[t].0) == code {
        assert(voxels[t].0.within(resolution));
    }
}

/// The first `t` pairs binned into bricks, in order of first appearance.
spec fn bins(
    voxels: Seq<(VoxelCoord, u16)>,
    resolution: Resolution,
    t: int,
    codes: Seq<u64>,
    leaves: Seq<LeafBrick>,
    grids: Seq<Box<[u16; LEAF_VOXELS]>>,
) -> bool {
    &&& leaves.len() == codes.len()
    &&& grids.len() == codes.len()
    &&& codes.len() == brick_total(voxels, resolution, t)
    &&& forall|e: int|
        0 <= e < codes.len() ==> (#[trigger] codes[e]) < 0x8000_0000_0000_0000 && codes[e] < pow64(
            resolution.levels() as nat,
        )
    &&& forall|e: int| 0 <= e < codes.len() ==> !(#[trigger] leaves[e]).vacant()
    &&& forall|e: int, f: int| 0 <= e < f < codes.len() ==> codes[e] != codes[f]
    &&& forall|e: int, d: VoxelCoord|
        #![trigger codes[e], last_id(voxels, d, t)]
        0 <= e < codes.len() && d.within(resolution) && codes[e] == brick_code(d) ==> binned(
            leaves[e],
            grids[e]@,
            d,
        ) == last_id(voxels, d, t)
    &&& forall|code: int| #[trigger]
        lists_code(codes, code) <==> touches(voxels, resolution, t, code)
    &&& forall|e: int, m: int|
        #![trigger grids[e]@[m]]
        0 <= e < codes.len() && 0 <= m < 512 && !leaves[e]@[m] ==> grids[e]@[m] == 0
}

/// `index` finds each code's brick.
spec fn indexes(index: Map<u64, usize>, codes: Seq<u64>) -> bool {
    &&& forall|code: u64| #[trigger]
        index.contains_key(code) ==> index[code] < codes.len() && codes[index[code] as int] == code
    &&& forall|e: int| 0 <= e < codes.len() ==> index.contains_key(#[trigger] codes[e])
}

proof fn lemma_last_id_found(voxels: Seq<(VoxelCoord, u16)>, d: VoxelCoord, n: int) -> (j: int)
    requires
        last_id(voxels, d, n) is Some,
        0 <= n <= voxels.len(),
    ensures
        0 <= j < n,
        voxels[j].0 == d,
        last_id(voxels, d, n) == Some(voxels[j].1),
    decreases n,
{
    if voxels[n - 1].0 == d {
        n - 1
    } else {
        lemma_last_id_found(voxels, d, n - 1)
    }
}

/// Bins one more in-bounds pair into brick `e`, which is new or has its code.
proof fn lemma_bin_step(
    voxels: Seq<(VoxelCoord, u16)>,
    resolution: Resolution,
    t: int,
    codes: Seq<u64>,
    leaves: Seq<LeafBrick>,
    grids: Seq<Box<[u16; LEAF_VOXELS]>>,
    codes2: Seq<u64>,
    leaves2: Seq<LeafBrick>,
    grids2: Seq<Box<[u16; LEAF_VOXELS]>>,
    e: int,
    fresh: bool,
)
    requires
        0 <= t < voxels.len(),
        resolution.wf(),
        bins(voxels, resolution, t, codes, leaves, grids),
        voxels[t].0.within(resolution),
        brick_code(voxels[t].0) < 0x8000_0000_0000_0000,
        brick_code(voxels[t].0) < pow64(resolution.levels() as nat),
        codes2.len() == leaves2.len(),
        codes2.len() == grids2.len(),
        0 <= e < codes2.len(),
        codes2[e] == brick_code(voxels[t].0),
        fresh ==> e == codes.len() && codes2 == codes.push(codes2[e]) && forall|f: int|
            0 <= f < codes.len() ==> #[trigger] codes[f] != codes2[e],
        !fresh ==> codes2 == codes,
        forall|f: int| 0 <= f < codes.len() && f != e ==> #[trigger] leaves2[f] == leaves[f],
        forall|f: int| 0 <= f < codes.len() && f != e ==> #[trigger] grids2[f] == grids[f],
        ({
            let c = voxels[t].0;
            let l = local_index(c.x, c.y, c.z);
            &&& forall|m: int|
                0 <= m < 512 ==> #[trigger] leaves2[e]@[m] == (m == l || (!fresh && leaves[e]@[m]))
            &&& forall|m: int|
                0 <= m < 512 ==> #[trigger] grids2[e]@[m] == if m == l {
                    voxels[t].1
                } else if fresh {
                    0
                } else {
                    grids[e]@[m]
                }
        }),
    ensures
        bins(voxels, resolution, t + 1, codes2, leaves2, grids2),
{
    let c = voxels[t].0;
    let l = local_index(c.x, c.y, c.z);
    let code = brick_code(c) as int;
    lemma_local_range(c.x, c.y, c.z);
    assert(lists_code(codes, code) == !fresh) by {
        if !fresh {
            assert(codes[e] == code);
        }
    }
    assert(fresh <==> opens_brick(voxels, resolution, t));
    assert forall|x: int| #[trigger]
        lists_code(codes2, x) <==> touches(voxels, resolution, t + 1, x) by {
        lemma_touches_step(voxels, resolution, t, x);
        assert(lists_code(codes, x) <==> touches(voxels, resolution, t, x));
        if lists_code(codes, x) {
            let f = choose|f: int| 0 <= f < codes.len() && #[trigger] codes[f] == x;
            assert(codes2[f] == x);
        }
        if x == code {
            assert(codes2[e] == x);
        }
        if lists_code(codes2, x) {
            let f = choose|f: int| 0 <= f < codes2.len() && #[trigger] codes2[f] == x;
            if f < codes.len() {
                assert(codes[f] == x);
            }
        }
    }
    assert forall|f: int, d: VoxelCoord|
        #![trigger codes2[f], last_id(voxels, d, t + 1)]
        0 <= f < codes2.len() && d.within(resolution) && codes2[f] == brick_code(d) implies binned(
        leaves2[f],
        grids2[f]@,
        d,
    ) == last_id(voxels, d, t + 1) by {
        lemma_bin_voxel(
            voxels,
            resolution,
            t,
            codes,
            leaves,
            grids,
            codes2,
            leaves2,
            grids2,
            e,
            fresh,
            f,
            d,
        );
    }
    assert forall|f: int| 0 <= f < codes2.len() implies !(#[trigger] leaves2[f]).vacant() by {
        if f == e {
            assert(leaves2[e]@[l]);
        } else {
            assert(leaves2[f] == leaves[f]);
        }
    }
    assert forall|f: int, m: int|
        #![trigger grids2[f]@[m]]
        0 <= f < codes2.len() && 0 <= m < 512 && !leaves2[f]@[m] implies grids2[f]@[m] == 0 by {
        if f != e {
            assert(grids2[f] == grids[f] && leaves2[f] == leaves[f]);
            assert(grids[f]@[m] == 0);
        } else if !fresh {
            assert(leaves2[e]@[m] == (m == l || leaves[e]@[m]));
            assert(grids[f]@[m] == 0);
        }
    }
}

/// What the bins say of one voxel after one more pair.
proof fn lemma_bin_voxel(
    voxels: Seq<(VoxelCoord, u16)>,
    resolution: Resolution,
    t: int,
    codes: Seq<u64>,
    leaves: Seq<LeafBrick>,
    grids: Seq<Box<[u16; LEAF_VOXELS]>>,
    codes2: Seq<u64>,
    leaves2: Seq<LeafBrick>,
    grids2: Seq<Box<[u16; LEAF_VOXELS]>>,
    e: int,
    fresh: bool,
    f: int,
    d: VoxelCoord,
)
    requires
        0 <= t < voxels.len(),
        bins(voxels, resolution, t, codes, leaves, grids),
        voxels[t].0.within(resolution),
        0 <= e < codes2.len(),
        codes2[e] == brick_code(voxels[t].0),
        fresh ==> e == codes.len() && codes2 == codes.push(codes2[e]) && !lists_code(
            codes,
            codes2[e] as int,
        ),
        !fresh ==> codes2 == codes,
        f != e ==> leaves2[f] == leaves[f] && grids2[f] == grids[f],
        ({
            let c = voxels[t].0;
            let l = local_index(c.x, c.y, c.z);
            &&& forall|m: int|
                0 <= m < 512 ==> #[trigger] leaves2[e]@[m] == (m == l || (!fresh && leaves[e]@[m]))
            &&& forall|m: int|
                0 <= m < 512 ==> #[trigger] grids2[e]@[m] == if m == l {
                    voxels[t].1
                } else if fresh {
                    0
                } else {
                    grids[e]@[m]
                }
        }),
        0 <= f < codes2.len(),
        d.within(resolution),
        codes2[f] == brick_code(d),
    ensures
        binned(leaves2[f], grids2[f]@, d) == last_id(voxels, d, t + 1),
{
    let c = voxels[t].0;
    lemma_local_range(d.x, d.y, d.z);
    let before = last_id(voxels, d, t);
    if f == e {
        if d != c {
            if local_index(d.x, d.y, d.z) == local_index(c.x, c.y, c.z) {
                lemma_same_voxel(c, d);
            }
            if fresh {
                if before is Some {
                    let j = lemma_last_id_found(voxels, d, t);
                    assert(voxels[j].0.within(resolution));
                    assert(touches(voxels, resolution, t, codes2[e] as int));
                    assert(lists_code(codes, codes2[e] as int));
                }
            } else {
                assert(codes[f] == codes2[f]);
                assert(binned(leaves[f], grids[f]@, d) == before);
            }
        }
    } else {
        assert(codes[f] == codes2[f]);
        assert(binned(leaves[f], grids[f]@, d) == before);
        if d == c {
            if fresh {
                assert(lists_code(codes, codes2[e] as int));
            } else if f < e {
                assert(codes[f] != codes[e]);
            } else {
                assert(codes[e] != codes[f]);
            }
        }
    }
}

/// An out-of-bounds pair changes nothing.
proof fn lemma_bin_skip(
    voxels: Seq<(VoxelCoord, u16)>,
    resolution: Resolution,
    t: int,
    codes: Seq<u64>,
    leaves: Seq<LeafBrick>,
    grids: Seq<Box<[u16; LEAF_VOXELS]>>,
)
    requires
        0 <= t < voxels.len(),
        bins(voxels, resolution, t, codes, leaves, grids),
        !voxels[t].0.within(resolution),
    ensures
        bins(voxels, resolution, t + 1, codes, leaves, grids),
{
    assert forall|e: int, d: VoxelCoord|
        #![trigger codes[e], last_id(voxels, d, t + 1)]
        0 <= e < codes.len() && d.within(resolution) && codes[e] == brick_code(d) implies binned(
        leaves[e],
        grids[e]@,
        d,
    ) == last_id(voxels, d, t + 1) by {
        assert(binned(leaves[e], grids[e]@, d) == last_id(voxels, d, t));
    }
    assert forall|x: int| #[trigger]
        lists_code(codes, x) <==> touches(voxels, resolution, t + 1, x) by {
        lemma_touches_step(voxels, resolution, t, x);
    }
}

/// Bins voxels into bricks, in order of first appearance.
fn bin_voxels(resolution: Resolution, voxels: &[(VoxelCoord, u16)]) -> (r: (
    Vec<u64>,
    Vec<LeafBrick>,
    Vec<Box<[u16; LEAF_VOXELS]>>,
))
    requires
        forall|i: int|
            0 <= i < voxels@.len() ==> codable((#[trigger] voxels@[i]).0, resolution),
    ensures
        bins(voxels@, resolution, voxels@.len() as int, r.0@, r.1@, r.2@),
{
    let n: u32 = resolution.voxels_per_axis();
    let mut codes: Vec<u64> = Vec::new();
    let mut leaves: Vec<LeafBrick> = Vec::new();
    let mut grids: Vec<Box<[u16; LEAF_VOXELS]>> = Vec::new();
    let mut index: HashMap<u64, usize> = HashMap::new();
    let mut t: usize = 0;
    while t < voxels.len()
        invariant
            t <= voxels@.len(),
            resolution.wf(),
            forall|i: int|
                0 <= i < voxels@.len() ==> codable((#[trigger] voxels@[i]).0, resolution),
            bins(voxels@, resolution, t as int, codes@, leaves@, grids@),
            indexes(index@, codes@),
        decreases voxels.len() - t,
    {
        let (c, gid) = voxels[t];
        let ghost (codes0, leaves0, grids0) = (codes@, leaves@, grids@);
        if c.in_bounds(resolution) {
            assert(codable(voxels@[t as int].0, resolution));
            let code: u64 = crate::sparse::brick_of(c, resolution);
            let m: usize = morton::encode_brick(c.x, c.y, c.z) as usize;
            let found: Option<usize> = match index.get(&code) {
                Some(e) => Some(*e),
                None => None,
            };
            match found {
                Some(e) => {
                    let mut leaf: LeafBrick = leaves[e];
                    leaf.set_local(c.x, c.y, c.z);
                    leaves[e] = leaf;
                    grids[e][m] = gid;
                    proof {
                        lemma_bin_step(
                            voxels@,
                            resolution,
                            t as int,
                            codes0,
                            leaves0,
                            grids0,
                            codes@,
                            leaves@,
                            grids@,
                            e as int,
                            false,
                        );
                    }
                },
                None => {
                    let e: usize = codes.len();
                    let mut leaf: LeafBrick = LeafBrick::empty();
                    let ghost blank = leaf;
                    leaf.set_local(c.x, c.y, c.z);
                    let mut grid: Box<[u16; LEAF_VOXELS]> = Box::new([0u16;LEAF_VOXELS]);
                    grid[m] = gid;
                    codes.push(code);
                    leaves.push(leaf);
                    grids.push(grid);
                    index.insert(code, e);
                    proof {
                        lemma_local_range(c.x, c.y, c.z);
                        assert forall|j: int| 0 <= j < 512 implies #[trigger] leaves@[e as int]@[j]
                            == (j == local_index(c.x, c.y, c.z)) by {
                            assert(!blank@[j]);
                        }
                        assert forall|f: int| 0 <= f < codes0.len() implies #[trigger] codes0[f]
                            != code by {}
                        lemma_bin_step(
                            voxels@,
                            resolution,
                            t as int,
                            codes0,
                            leaves0,
                            grids0,
                            codes@,
                            leaves@,
                            grids@,
                            e as int,
                            true,
                        );
                        assert forall|f: int| 0 <= f < codes@.len() implies index@.contains_key(
                            #[trigger] codes@[f],
                        ) by {
                            if f < e {
                                assert(codes0[f] == codes@[f]);
                            }
                        }
                    }
                },
            }
        } else {
            proof {
                lemma_bin_skip(voxels@, resolution, t as int, codes@, leaves@, grids@);
            }
        }
        t = t + 1;
    }
    (codes, leaves, grids)
}

/// The tree of these voxels: each coord in bounds is occupied and carries the
/// last id it was given; nothing else is stored.
pub open spec fn collected(
    t: SparseTree,
    resolution: Resolution,
    voxels: Seq<(VoxelCoord, u16)>,
) -> bool {
    &&& t.wf()
    &&& t.compact()
    &&& t.resolution == resolution
    &&& t.topo_gen == 0
    &&& forall|c: VoxelCoord|
        #[trigger] t.occupied(c) == (c.within(resolution) && last_id(
            voxels,
            c,
            voxels.len() as int,
        ) is Some)
    &&& forall|c: VoxelCoord|
        #[trigger] t.material(c) == match last_id(voxels, c, voxels.len() as int) {
            Some(gid) => if c.within(resolution) {
                gid
            } else {
                0
            },
            None => 0,
        }
    &&& forall|i: int, m: int|
        #![trigger t.materials@[i]@[m]]
        0 <= i < t.leaves@.len() && 0 <= m < 512 && !t.leaves@[i]@[m] ==> t.materials@[i]@[m] == 0
}

impl SparseTree {
    /// Assembles the sparse hierarchy **and its per-voxel materials** from
    /// `(coord, global_id)` pairs, in any order, where `global_id` is a global
    /// material id (`0` = the magenta MISSING sentinel). Voxels are binned into
    /// `8³` leaves; a repeated coord keeps the **last** `global_id` given.
    /// Out-of-bounds coords are skipped.
    #[must_use]
    pub fn from_voxels(resolution: Resolution, voxels: &[(VoxelCoord, u16)]) -> (r: Self)
        requires
            forall|i: int|
                0 <= i < voxels@.len() ==> codable((#[trigger] voxels@[i]).0, resolution),
            indexable(resolution, brick_total(voxels@, resolution, voxels@.len() as int)),
        ensures
            collected(r, resolution, voxels@),
    {
        let k: u32 = resolution.internal_levels();
        let (bin_codes, bin_leaves, bin_grids) = bin_voxels(resolution, voxels);
        let mut order: Vec<(u64, usize)> = Vec::new();
        let mut i: usize = 0;
        while i < bin_codes.len()
            invariant
                i <= bin_codes@.len(),
                order@.len() == i,
                forall|j: int| 0 <= j < i ==> #[trigger] order@[j] == (bin_codes@[j], j as usize),
            decreases bin_codes.len() - i,
        {
            order.push((bin_codes[i], i));
            i = i + 1;
        }
        let ghost given = order@;
        sort_by_code(&mut order);
        let ghost sorted = order@;
        proof {
            lemma_sorted_distinct(given, sorted);
            assert forall|j: int| 0 <= j < sorted.len() implies (#[trigger] sorted[j]).1
                < bin_codes@.len() && sorted[j].0 == bin_codes@[sorted[j].1 as int] by {
                assert(given.contains(sorted[j]));
            }
        }
        let mut codes: Vec<u64> = Vec::new();
        let mut leaves: Vec<LeafBrick> = Vec::new();
        let mut materials: Vec<Box<[u16; LEAF_VOXELS]>> = Vec::new();
        let mut j: usize = 0;
        while j < order.len()
            invariant
                j <= sorted.len(),
                order@ == sorted,
                bin_leaves@.len() == bin_codes@.len(),
                bin_grids@.len() == bin_codes@.len(),
                forall|p: int|
                    0 <= p < sorted.len() ==> (#[trigger] sorted[p]).1 < bin_codes@.len()
                        && sorted[p].0 == bin_codes@[sorted[p].1 as int],
                codes@.len() == j,
                leaves@.len() == j,
                materials@.len() == j,
                forall|p: int|
                    #![trigger codes@[p]]
                    #![trigger leaves@[p]]
                    #![trigger materials@[p]]
                    0 <= p < j ==> {
                        let e = sorted[p].1 as int;
                        &&& codes@[p] == sorted[p].0
                        &&& leaves@[p] == bin_leaves@[e]
                        &&& materials@[p]@ == bin_grids@[e]@
                    },
            decreases order.len() - j,
        {
            let (code, e) = order[j];
            assert(sorted[j as int].1 < bin_codes@.len());
            codes.push(code);
            leaves.push(bin_leaves[e]);
            materials.push(Box::new(*bin_grids[e]));
            j = j + 1;
        }
        proof {
            assert(codes@ =~= codes_of(sorted));
            assert forall|p: int| 0 <= p < codes@.len() implies (#[trigger] codes@[p])
                < 0x8000_0000_0000_0000 && codes@[p] < pow64(resolution.levels() as nat) by {
                assert(sorted[p].1 < bin_codes@.len());
            }
            if resolution.levels() <= 5 {
                lemma_few_codes(codes@, resolution.levels() as nat);
            }
        }
        let nodes: Vec<Vec<GpuNode>> = build_levels(k, &codes);
        let r = Self { resolution, nodes, leaves, codes, topo_gen: 0, materials };
        proof {
            lemma_from_bins(
                r,
                voxels@,
                bin_codes@,
                bin_leaves@,
                bin_grids@,
                given,
                sorted,
            );
        }
        r
    }
}

/// A tree over the sorted bins has the voxels and ids that were binned.
proof fn lemma_from_bins(
    r: SparseTree,
    voxels: Seq<(VoxelCoord, u16)>,
    codes: Seq<u64>,
    leaves: Seq<LeafBrick>,
    grids: Seq<Box<[u16; LEAF_VOXELS]>>,
    given: Seq<(u64, usize)>,
    sorted: Seq<(u64, usize)>,
)
    requires
        r.wf(),
        bins(voxels, r.resolution, voxels.len() as int, codes, leaves, grids),
        given.len() == codes.len(),
        forall|j: int| 0 <= j < given.len() ==> #[trigger] given[j] == (codes[j], j as usize),
        codes.len() <= usize::MAX,
        forall|j: int| 0 <= j < given.len() ==> sorted.contains(#[trigger] given[j]),
        sorted.len() == r.codes@.len(),
        forall|p: int|
            0 <= p < sorted.len() ==> (#[trigger] sorted[p]).1 < codes.len() && sorted[p].0
                == codes[sorted[p].1 as int],
        forall|p: int|
            #![trigger r.codes@[p]]
            #![trigger r.leaves@[p]]
            #![trigger r.materials@[p]]
            0 <= p < sorted.len() ==> {
                let e = sorted[p].1 as int;
                &&& r.codes@[p] == sorted[p].0
                &&& r.leaves@[p] == leaves[e]
                &&& r.materials@[p]@ == grids[e]@
            },
    ensures
        r.compact(),
        forall|c: VoxelCoord|
            #[trigger] r.occupied(c) == (c.within(r.resolution) && last_id(
                voxels,
                c,
                voxels.len() as int,
            ) is Some),
        forall|c: VoxelCoord|
            #[trigger] r.material(c) == match last_id(voxels, c, voxels.len() as int) {
                Some(gid) => if c.within(r.resolution) {
                    gid
                } else {
                    0
                },
                None => 0,
            },
        forall|i: int, m: int|
            #![trigger r.materials@[i]@[m]]
            0 <= i < r.leaves@.len() && 0 <= m < 512 && !r.leaves@[i]@[m] ==> r.materials@[i]@[m]
                == 0,
{
    let t = voxels.len() as int;
    assert forall|p: int| 0 <= p < r.leaves@.len() implies !(#[trigger] r.leaves@[p]).vacant() by {
        assert(sorted[p].1 < codes.len());
        assert(!leaves[sorted[p].1 as int].vacant());
    }
    assert forall|i: int, m: int|
        #![trigger r.materials@[i]@[m]]
        0 <= i < r.leaves@.len() && 0 <= m < 512 && !r.leaves@[i]@[m] implies r.materials@[i]@[m]
        == 0 by {
        assert(sorted[i].1 < codes.len());
        assert(r.materials@[i]@ == grids[sorted[i].1 as int]@);
        assert(grids[sorted[i].1 as int]@[m] == 0);
    }
    assert forall|c: VoxelCoord|
        #![trigger r.occupied(c)]
        #![trigger r.material(c)]
        r.occupied(c) == (c.within(r.resolution) && last_id(voxels, c, t) is Some) && r.material(c)
            == match last_id(voxels, c, t) {
            Some(gid) => if c.within(r.resolution) {
                gid
            } else {
                0
            },
            None => 0,
        } by {
        if c.within(r.resolution) {
            let code = brick_code(c) as int;
            let id = last_id(voxels, c, t);
            if r.has_brick(code) {
                let s = r.slot(code);
                lemma_slot(r, s);
                let e = sorted[s].1 as int;
                assert(r.codes@[s] == sorted[s].0);
                assert(codes[e] == brick_code(c));
                assert(binned(leaves[e], grids[e]@, c) == id);
                assert(r.leaves@[s] == leaves[e]);
                assert(r.materials@[s]@ == grids[e]@);
            } else if id is Some {
                let j = lemma_last_id_found(voxels, c, t);
                assert(voxels[j].0.within(r.resolution));
                assert(touches(voxels, r.resolution, t, code));
                assert(lists_code(codes, code));
                let e = choose|e: int| 0 <= e < codes.len() && #[trigger] codes[e] == code;
                assert(sorted.contains(given[e]));
                let p = choose|p: int| 0 <= p < sorted.len() && sorted[p] == given[e];
                assert(r.codes@[p] == code);
            }
        }
    }
}

/// The slabs follow one another and share the layers evenly: none has more than
/// the others need, rounded up, and a slab ends where the next begins.
pub proof fn law_slabs_are_even(bpa: u32, threads: u32, t: u32, r: (u32, u32), next: (u32, u32))
    requires
        1 <= threads <= bpa,
        t + 1 < threads,
        bpa <= 0x1000_0000,
        call_ensures(slab_bounds, (bpa, threads, t), r),
        call_ensures(slab_bounds, (bpa, threads, (t + 1) as u32), next),
    ensures
        (r.1 - r.0) * threads < bpa + threads,
        r.1 <= next.0 || r.1 == bpa,
        next.0 <= bpa ==> r.1 == next.0,
        t == 0 ==> r.0 == 0,
{
    let (b, n, i) = (bpa as int, threads as int, t as int);
    let chunk = (b + n - 1) / n;
    lemma_chunk(b, n, i);
    lemma_chunk(b, n, i + 1);
    vstd::arithmetic::div_mod::lemma_fundamental_div_mod(b + n - 1, n);
    let len = r.1 - r.0;
    assert((i + 1) * chunk == i * chunk + chunk) by (nonlinear_arith);
    assert(len <= chunk);
    assert(len * n <= chunk * n && chunk * n == n * chunk) by (nonlinear_arith)
        requires
            len <= chunk,
            1 <= n,
    ;
    if i == 0 {
        assert(0 * chunk == 0) by (nonlinear_arith);
    }
}

/// What is built holds what it was built from: a field's voxels, the bricks
/// given, or the voxels given with their ids.
pub proof fn law_builds_hold_their_source<F: OccupancyField>(
    field: &F,
    t: SparseTree,
    resolution: Resolution,
    bricks: Vec<(u64, LeafBrick)>,
    u: SparseTree,
    voxels: &[(VoxelCoord, u16)],
    v: SparseTree,
    c: VoxelCoord,
    i: int,
)
    requires
        field.valid(),
        field.grid().levels() <= 10,
        ({
            let m = pow4(field.grid().levels() as nat) as int;
            indexable(field.grid(), occupied_bricks(field, m, 0, m * m * m))
        }),
        call_ensures(SparseTree::build::<F>, (field,), t),
        bricks_ok(resolution, bricks@),
        call_ensures(SparseTree::from_bricks, (resolution, bricks), u),
        forall|k: int| 0 <= k < voxels@.len() ==> codable((#[trigger] voxels@[k]).0, resolution),
        indexable(resolution, brick_total(voxels@, resolution, voxels@.len() as int)),
        call_ensures(SparseTree::from_voxels, (resolution, voxels), v),
    ensures
        t.wf() && t.compact() && u.wf() && v.wf() && v.compact(),
        t.occupied(c) <==> c.within(field.grid()) && field.occ(c),
        t.material(c) == 0,
        0 <= i < bricks@.len() ==> u.leaves@[u.slot(bricks@[i].0 as int)] == bricks@[i].1,
        u.codes@.len() == bricks@.len(),
        0 <= i < voxels@.len() && voxels@[i].0.within(resolution) ==> v.occupied(voxels@[i].0),
        0 <= i < voxels@.len() && voxels@[i].0.within(resolution) && (forall|k: int|
            i < k < voxels@.len() ==> (#[trigger] voxels@[k]).0 != voxels@[i].0) ==> v.material(
            voxels@[i].0,
        ) == voxels@[i].1,
        (forall|k: int| 0 <= k < voxels@.len() ==> (#[trigger] voxels@[k]).0 != c) ==> !v.occupied(
            c,
        ),
{
    assert(t.occupied(c) == t.occupied(c));
    if t.occupied(c) {
        let s = t.slot(brick_code(c) as int);
        lemma_local_range(c.x, c.y, c.z);
        assert(t.materials@[s]@[local_index(c.x, c.y, c.z)] == 0);
    }
    let n = voxels@.len() as int;
    if 0 <= i < n {
        lemma_last_id(voxels@, voxels@[i].0, i, n);
        assert(v.occupied(voxels@[i].0) == v.occupied(voxels@[i].0));
        assert(v.material(voxels@[i].0) == v.material(voxels@[i].0));
    }
    if forall|k: int| 0 <= k < n ==> (#[trigger] voxels@[k]).0 != c {
        lemma_no_id(voxels@, c, n);
        assert(v.occupied(c) == v.occupied(c));
    }
}

/// A voxel listed has a last id, and it is this one's where none follows.
proof fn lemma_last_id(voxels: Seq<(VoxelCoord, u16)>, d: VoxelCoord, i: int, n: int)
    requires
        0 <= i < n,
        voxels[i].0 == d,
    ensures
        last_id(voxels, d, n) is Some,
        (forall|k: int| i < k < n ==> (#[trigger] voxels[k]).0 != d) ==> last_id(voxels, d, n)
            == Some(voxels[i].1),
    decreases n,
{
    if i < n - 1 {
        lemma_last_id(voxels, d, i, n - 1);
        if forall|k: int| i < k < n ==> (#[trigger] voxels[k]).0 != d {
            assert(voxels[n - 1].0 != d);
        }
    }
}

proof fn lemma_no_id(voxels: Seq<(VoxelCoord, u16)>, d: VoxelCoord, n: int)
    requires
        forall|k: int| 0 <= k < n ==> (#[trigger] voxels[k]).0 != d,
    ensures
        last_id(voxels, d, n) is None,
    decreases n,
{
    if n > 0 {
        assert(voxels[n - 1].0 != d);
        lemma_no_id(voxels, d, n - 1);
    }
}

/// A slab lists the occupied bricks of its layers and no others, each with its
/// code and its voxels, in scan order: every one between the two layers is there,
/// and whatever is there lies between them.
pub proof fn law_slab_lists_its_layers<F: OccupancyField>(
    field: &F,
    bpa: u32,
    bz_lo: u32,
    bz_hi: u32,
    out: Vec<(u64, LeafBrick)>,
    b: VoxelCoord,
    i: int,
)
    requires
        field.valid(),
        bpa <= MAX_MORTON_COORD,
        bz_lo <= bz_hi <= bpa,
        call_ensures(enumerate_slab::<F>, (field, bpa, bz_lo, bz_hi), out),
    ensures
        b.x < bpa && b.y < bpa && bz_lo <= b.z < bz_hi && brick_occupied(field, b) ==> exists|j: int|
            0 <= j < out@.len() && (#[trigger] out@[j]).0 == morton(
                b.x as nat,
                b.y as nat,
                b.z as nat,
            ) && scans(field, b, out@[j].1),
        0 <= i < out@.len() ==> exists|d: VoxelCoord|
            d.x < bpa && d.y < bpa && bz_lo <= d.z < bz_hi && out@[i].0 == morton(
                d.x as nat,
                d.y as nat,
                d.z as nat,
            ) && #[trigger] scans(field, d, out@[i].1),
        0 <= i < out@.len() ==> !out@[i].1.vacant(),
{
    let m = bpa as int;
    let (lo, hi) = (
        linear(VoxelCoord { x: 0, y: 0, z: bz_lo }, m),
        linear(VoxelCoord { x: 0, y: 0, z: bz_hi }, m),
    );
    let at = choose|at: Seq<VoxelCoord>| #[trigger] lists(field, out@, at, m, lo, hi);
    if b.x < m && b.y < m && bz_lo <= b.z < bz_hi && brick_occupied(field, b) {
        lemma_layer_range(b, m, bz_lo, bz_hi);
        assert(at.contains(b));
        let j = choose|j: int| 0 <= j < at.len() && at[j] == b;
        assert(out@[j].0 == morton(b.x as nat, b.y as nat, b.z as nat));
    }
    if 0 <= i < out@.len() {
        let d = at[i];
        lemma_layer_range(d, m, bz_lo, bz_hi);
        assert(scans(field, d, out@[i].1));
    }
}

/// A brick's place lies between two layers' exactly where the brick does.
proof fn lemma_layer_range(b: VoxelCoord, m: int, lo: u32, hi: u32)
    requires
        b.x < m,
        b.y < m,
    ensures
        linear(VoxelCoord { x: 0, y: 0, z: lo }, m) <= linear(b, m) < linear(
            VoxelCoord { x: 0, y: 0, z: hi },
            m,
        ) <==> lo <= b.z < hi,
{
    let (x, y, z) = (b.x as int, b.y as int, b.z as int);
    let (l, h) = (lo as int, hi as int);
    let place = x + m * (y + m * z);
    assert(0 <= x + m * y < m * m) by (nonlinear_arith)
        requires
            0 <= x < m,
            0 <= y < m,
    ;
    let w = m * m;
    let r = x + m * y;
    assert(m * (y + m * z) == m * y + w * z && m * (0 + m * l) == w * l && m * (0 + m * h) == w * h)
        by (nonlinear_arith)
        requires
            w == m * m,
    ;
    assert(w * l <= r + w * z <==> l <= z) by (nonlinear_arith)
        requires
            0 <= r < w,
    ;
    assert(r + w * z < w * h <==> z < h) by (nonlinear_arith)
        requires
            0 <= r < w,
    ;
}

} // verus!
