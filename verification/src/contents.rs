//! What the structures hold, end to end: edits and their undoing, and what a
//! reader of the serialized buffers gets back of what was written.

use crate::bits::{lemma_ones_monotone, ones};
use crate::coord::VoxelCoord;
use crate::layout::{brick_code, leaf_of, Cell};
use crate::leaf::{lemma_view_len, LeafBrick};
use crate::levels::MAX_CELLS;
use crate::morton::{lemma_local_range, local_index};
use crate::node::GpuNode;
use crate::palette::{is_leaf_slot, law_leaf_slot_reads_back, leaf_indices, leaf_palette, palette_of, readable, scan_index, slot_material, spills};
use crate::school_b::{color_start, colored, law_layouts_agree, law_serialization_unique, lemma_voxel_total_monotone, marked, placed, shows, slot_words, subtree_nodes, SchoolBBuffer};
use crate::sparse::{law_structure_determined, lemma_slot, lemma_voxel_of, node_total, voxel_total, SparseTree};
use crate::truecolor::{ceil_div, chunk_end, law_chunks_retile};
use vstd::prelude::*;

verus! {

broadcast use lemma_view_len;

/// Tree `b` is tree `a` with voxel `c` set to `v`; nothing else is occupied or
/// freed.
pub open spec fn toggled(a: SparseTree, b: SparseTree, c: VoxelCoord, v: bool) -> bool {
    &&& b.wf()
    &&& b.compact()
    &&& b.resolution == a.resolution
    &&& forall|d: VoxelCoord|
        #[trigger] b.occupied(d) == if d == c && c.within(a.resolution) {
            v
        } else {
            a.occupied(d)
        }
}

/// Two trees have the same bricks and the same node levels.
pub open spec fn same_structure(a: SparseTree, b: SparseTree) -> bool {
    &&& a.codes@ == b.codes@
    &&& a.leaves@ == b.leaves@
    &&& a.nodes@.len() == b.nodes@.len()
    &&& forall|l: int| 0 <= l < a.nodes@.len() ==> (#[trigger] a.nodes@[l])@ == b.nodes@[l]@
}

/// An edit is undone by the opposite edit: setting a voxel back to what it was
/// restores every brick and every node level.
pub proof fn law_edit_undone(a: SparseTree, b: SparseTree, d: SparseTree, c: VoxelCoord, v: bool)
    requires
        a.wf(),
        a.compact(),
        toggled(a, b, c, v),
        toggled(b, d, c, a.occupied(c)),
    ensures
        same_structure(a, d),
{
    assert forall|e: VoxelCoord| #[trigger] a.occupied(e) == d.occupied(e) by {
        assert(b.occupied(e) == b.occupied(e));
    }
    law_structure_determined(a, d);
}

/// Edits of different voxels commute.
pub proof fn law_edits_commute(
    a: SparseTree,
    b: SparseTree,
    bc: SparseTree,
    d: SparseTree,
    db: SparseTree,
    p: VoxelCoord,
    q: VoxelCoord,
    v: bool,
    w: bool,
)
    requires
        p != q,
        toggled(a, b, p, v),
        toggled(b, bc, q, w),
        toggled(a, d, q, w),
        toggled(d, db, p, v),
    ensures
        same_structure(bc, db),
{
    assert forall|e: VoxelCoord| #[trigger] bc.occupied(e) == db.occupied(e) by {
        assert(b.occupied(e) == b.occupied(e) && d.occupied(e) == d.occupied(e));
    }
    law_structure_determined(bc, db);
}

/// A serialized buffer gives back the materials that were assigned: a descent of
/// the buffer towards an occupied voxel ends at a leaf, and reading that leaf's
/// slot at the voxel's Morton index finds the voxel's material, or the sentinel 0
/// where the leaf has more materials than fit.
pub proof fn law_material_reads_back(b: SchoolBBuffer, t: SparseTree, c: VoxelCoord)
    requires
        t.wf(),
        b.structure_of(t),
        b.materials_of(t),
        b.nodes@.len() <= MAX_CELLS,
        t.occupied(c),
    ensures
        ({
            let i = t.slot(brick_code(c) as int);
            let slot = slot_words(b.leaf_mat@, i);
            let m = local_index(c.x, c.y, c.z);
            &&& leaf_of(&b, c) == Cell::Leaf(i as u32)
            &&& 0 <= i <= u32::MAX
            &&& readable(slot, m)
            &&& slot_material(slot, m) == if spills(t.materials@[i]@, t.leaves@[i]@) {
                0
            } else {
                t.material(c)
            }
        }),
{
    let i = t.slot(brick_code(c) as int);
    assert(0 <= i < t.codes@.len());
    law_layouts_agree(b, t, c);
    let m = local_index(c.x, c.y, c.z);
    lemma_local_range(c.x, c.y, c.z);
    assert(is_leaf_slot(slot_words(b.leaf_mat@, i), t.materials@[i]@, t.leaves@[i]@));
    assert(t.materials@[i]@.len() == 512);
    law_leaf_slot_reads_back(slot_words(b.leaf_mat@, i), t.materials@[i]@, t.leaves@[i]@, m);
}

/// The palette depends only on the occupied voxels' materials.
proof fn lemma_palette_follows(m1: Seq<u16>, m2: Seq<u16>, occ: Seq<bool>, t: int)
    requires
        0 <= t <= 512,
        forall|m: int| 0 <= m < 512 && #[trigger] occ[m] ==> m1[m] == m2[m],
    ensures
        palette_of(m1, occ, t) == palette_of(m2, occ, t),
    decreases t,
{
    if t > 0 {
        lemma_palette_follows(m1, m2, occ, t - 1);
        let m = scan_index(t - 1);
        lemma_local_range(((t - 1) % 8) as u32, ((t - 1) / 8 % 8) as u32, ((t - 1) / 64) as u32);
        assert(0 <= m < 512);
        if occ[m] {
            assert(m1[m] == m2[m]);
        }
    }
}

/// So does the packed slot.
proof fn lemma_slot_follows(slot: Seq<u32>, m1: Seq<u16>, m2: Seq<u16>, occ: Seq<bool>)
    requires
        forall|m: int| 0 <= m < 512 && #[trigger] occ[m] ==> m1[m] == m2[m],
        is_leaf_slot(slot, m1, occ),
    ensures
        is_leaf_slot(slot, m2, occ),
{
    lemma_palette_follows(m1, m2, occ, 512);
    assert(leaf_palette(m1, occ) == leaf_palette(m2, occ));
    assert(leaf_indices(m1, occ) =~= leaf_indices(m2, occ));
}

/// Placement depends only on what the levels hold.
proof fn lemma_placed_follows(
    bn: Seq<GpuNode>,
    a: Seq<Vec<GpuNode>>,
    b: Seq<Vec<GpuNode>>,
    level: nat,
    pos: int,
    lo: int,
    hi: int,
    start: int,
)
    requires
        2 <= level < a.len(),
        a.len() == b.len(),
        forall|l: int| 0 <= l < a.len() ==> (#[trigger] a[l])@ == b[l]@,
    ensures
        subtree_nodes(a, level, lo, hi) == subtree_nodes(b, level, lo, hi),
        placed(bn, a, level, pos, lo, hi, start) == placed(bn, b, level, pos, lo, hi, start),
    decreases level, hi - lo,
{
    if lo < hi {
        let node = a[level as int]@[hi - 1];
        let base = node.child_base as int;
        let n = node.rank(64) as int;
        lemma_placed_follows(bn, a, b, level, pos, lo, hi - 1, start);
        if level > 2 {
            let s = start + subtree_nodes(a, level, lo, hi - 1) - (hi - 1 - lo);
            lemma_placed_follows(bn, a, b, (level - 1) as nat, s, base, base + n, s + n);
        }
    }
}

proof fn lemma_node_total_follows(a: Seq<Vec<GpuNode>>, b: Seq<Vec<GpuNode>>, n: int)
    requires
        0 <= n <= a.len(),
        a.len() == b.len(),
        forall|l: int| 0 <= l < a.len() ==> (#[trigger] a[l])@ == b[l]@,
    ensures
        node_total(a, n) == node_total(b, n),
    decreases n,
{
    if n > 0 {
        lemma_node_total_follows(a, b, n - 1);
        assert(a[n - 1]@ == b[n - 1]@);
    }
}

/// Trees of the same structure and materials, with the same generation, serialize
/// alike.
proof fn lemma_serializes_alike(r: SchoolBBuffer, a: SparseTree, b: SparseTree)
    requires
        a.wf(),
        b.wf(),
        a.resolution == b.resolution,
        same_structure(a, b),
        forall|c: VoxelCoord| #[trigger] a.material(c) == b.material(c),
        r.structure_of(a),
        r.materials_of(a),
    ensures
        (SchoolBBuffer { source_gen: b.topo_gen, ..r }).structure_of(b),
        (SchoolBBuffer { source_gen: b.topo_gen, ..r }).materials_of(b),
{
    let k = (a.resolution.levels() + 1) as nat;
    lemma_node_total_follows(a.nodes@, b.nodes@, a.nodes@.len() as int);
    if a.codes@.len() > 0 && a.resolution.levels() >= 1 {
        lemma_placed_follows(r.nodes@, a.nodes@, b.nodes@, k, 0, 0, 1, 1);
    }
    assert forall|i: int| 0 <= i < b.leaves@.len() implies is_leaf_slot(
        #[trigger] slot_words(r.leaf_mat@, i),
        b.materials@[i]@,
        b.leaves@[i]@,
    ) by {
        assert forall|m: int| 0 <= m < 512 && #[trigger] b.leaves@[i]@[m] implies a.materials@[i]@[m]
            == b.materials@[i]@[m] by {
            let c = lemma_voxel_of(a, i, m);
            lemma_slot(a, i);
            lemma_slot(b, i);
            assert(a.material(c) == b.material(c));
        }
        assert(is_leaf_slot(slot_words(r.leaf_mat@, i), a.materials@[i]@, a.leaves@[i]@));
        lemma_slot_follows(
            slot_words(r.leaf_mat@, i),
            a.materials@[i]@,
            b.materials@[i]@,
            b.leaves@[i]@,
        );
    }
}

/// The serialized buffers are a function of what is stored: trees without empty
/// bricks that agree on every voxel's occupancy and material serialize to the
/// same nodes, leaves, bounds (up to flags) and material slots, however they
/// were built.
pub proof fn law_contents_determine_serialization(
    r: SchoolBBuffer,
    a: SparseTree,
    s: SchoolBBuffer,
    b: SparseTree,
)
    requires
        a.wf(),
        b.wf(),
        a.compact(),
        b.compact(),
        a.resolution == b.resolution,
        forall|c: VoxelCoord| #[trigger] a.occupied(c) == b.occupied(c),
        forall|c: VoxelCoord| #[trigger] a.material(c) == b.material(c),
        r.structure_of(a),
        r.materials_of(a),
        s.structure_of(b),
        s.materials_of(b),
    ensures
        r.nodes@ == s.nodes@,
        r.leaves@ == s.leaves@,
        forall|i: int|
            0 <= i < r.leaf_bounds@.len() ==> (#[trigger] r.leaf_bounds@[i]) % 0x4_0000
                == s.leaf_bounds@[i] % 0x4_0000,
        r.leaf_mat@ == s.leaf_mat@,
{
    law_structure_determined(a, b);
    lemma_serializes_alike(r, a, b);
    law_serialization_unique(SchoolBBuffer { source_gen: b.topo_gen, ..r }, s, b);
}

/// The buffer's colours are what `color_of` gave for the voxels it shows, one per
/// set voxel, each leaf's from its base on.
pub open spec fn bakes<F: Fn(VoxelCoord) -> [u8; 4]>(
    b: SchoolBBuffer,
    t: SparseTree,
    color_of: F,
) -> bool {
    &&& b.leaf_color@.len() == voxel_total(b.leaves@, b.leaves@.len() as int)
    &&& b.leaf_color_base@.len() == b.leaves@.len()
    &&& forall|i: int|
        0 <= i < b.leaves@.len() ==> #[trigger] b.leaf_color_base@[i] == color_start(b, i)
    &&& forall|i: int, c: VoxelCoord| #[trigger]
        shows(b, t, i, c) ==> colored(
            color_of,
            c,
            b.leaf_color@[color_start(b, i) + ones(b.leaves@[i]@, local_index(c.x, c.y, c.z))],
        )
}

/// A baked colour reads back through the chunks: a descent of the buffer towards
/// a voxel it shows ends at the voxel's leaf, and at that leaf's base plus the
/// voxel's rank, entry `g % per` of chunk `g / per` is the voxel's own colour.
pub proof fn law_baked_color_reads_back<F: Fn(VoxelCoord) -> [u8; 4]>(
    b: SchoolBBuffer,
    t: SparseTree,
    color_of: F,
    per: int,
    chunks: Seq<Seq<u32>>,
    i: int,
    c: VoxelCoord,
)
    requires
        t.wf(),
        b.structure_of(t),
        b.nodes@.len() <= MAX_CELLS,
        bakes(b, t, color_of),
        shows(b, t, i, c),
        per >= 1,
        chunks.len() == ceil_div(b.leaf_color@.len() as int, per),
        forall|j: int|
            0 <= j < chunks.len() ==> #[trigger] chunks[j] == b.leaf_color@.subrange(
                j * per,
                chunk_end(b.leaf_color@.len() as int, per, j),
            ),
    ensures
        ({
            let g = b.leaf_color_base@[i] + ones(b.leaves@[i]@, local_index(c.x, c.y, c.z));
            &&& leaf_of(&b, c) == Cell::Leaf(i as u32)
            &&& 0 <= i <= u32::MAX
            &&& g < b.leaf_color@.len()
            &&& g / per < chunks.len()
            &&& g % per < chunks[g / per].len()
            &&& colored(color_of, c, chunks[g / per][g % per])
        }),
{
    let m = local_index(c.x, c.y, c.z);
    let g = b.leaf_color_base@[i] + ones(b.leaves@[i]@, m);
    assert(leaf_of(&b, c) == Cell::Leaf(i as u32) && 0 <= i <= u32::MAX) by {
        law_layouts_agree(b, t, c);
        lemma_slot(t, i);
    }
    assert(b.leaf_color_base@[i] == color_start(b, i));
    lemma_color_place(b.leaves@, i, m, c);
    assert(g < b.leaf_color@.len());
    law_chunks_retile(b.leaf_color@, per, chunks, g);
    assert(colored(color_of, c, b.leaf_color@[g]));
}

/// A set voxel's colour lies within its leaf's.
proof fn lemma_color_place(leaves: Seq<LeafBrick>, i: int, m: int, c: VoxelCoord)
    requires
        0 <= i < leaves.len(),
        m == local_index(c.x, c.y, c.z),
        leaves[i].occ(c.x, c.y, c.z),
    ensures
        voxel_total(leaves, i) + ones(leaves[i]@, m) < voxel_total(leaves, leaves.len() as int),
{
    let leaf = leaves[i];
    lemma_local_range(c.x, c.y, c.z);
    lemma_ones_monotone(leaf@, m + 1, 512);
    assert(ones(leaf@, m + 1) == ones(leaf@, m) + 1);
    lemma_voxel_total_monotone(leaves, i + 1, leaves.len() as int);
    assert(voxel_total(leaves, i + 1) == voxel_total(leaves, i) + ones(leaf@, 512));
}

/// Baking colours leaves the structure alone and gives each voxel shown the colour
/// it was given, at its leaf's base plus its rank. A leaf is marked exactly where
/// one of its colours is not opaque, and the buffer says whether one is.
pub proof fn law_baking_is_by_voxel<F: Fn(VoxelCoord) -> [u8; 4]>(
    b: &mut SchoolBBuffer,
    t: SparseTree,
    color_of: F,
)
    requires
        t.wf(),
        old(b).structure_of(t),
        voxel_total(old(b).leaves@, old(b).leaves@.len() as int) <= u32::MAX,
        forall|i: int, c: VoxelCoord| #[trigger]
            shows(*old(b), t, i, c) ==> color_of.requires((c,)),
        call_ensures(SchoolBBuffer::assemble_leaf_color::<F>, (b, &t, color_of), ()),
    ensures
        bakes(*final(b), t, color_of),
        final(b).structure_of(t),
        final(b).leaf_mat == old(b).leaf_mat,
        final(b).flag_in_step(),
        forall|i: int|
            0 <= i < old(b).leaves@.len() ==> (marked(#[trigger] final(b).leaf_bounds@[i])
                <==> exists|s: int|
                color_start(*old(b), i) <= s < color_start(*old(b), i + 1) && (
                #[trigger] final(b).leaf_color@[s]) / 0x100_0000 != 255),
        final(b).has_transparency <==> exists|i: int|
            0 <= i < old(b).leaves@.len() && marked(#[trigger] final(b).leaf_bounds@[i]),
{
    assert forall|i: int| 0 <= i < old(b).leaves@.len() implies (marked(
        #[trigger] final(b).leaf_bounds@[i],
    ) <==> exists|s: int|
        color_start(*old(b), i) <= s < color_start(*old(b), i + 1) && (
        #[trigger] final(b).leaf_color@[s]) / 0x100_0000 != 255) by {
        let (lo, hi) = (color_start(*old(b), i), color_start(*old(b), i + 1));
        if exists|s: int|
            lo <= s < hi && (#[trigger] final(b).leaf_color@[s]) / 0x100_0000 != 255 {
            let s = choose|s: int|
                lo <= s < hi && (#[trigger] final(b).leaf_color@[s]) / 0x100_0000 != 255;
            assert(final(b).leaf_color@[s] / 0x100_0000 < 255);
        }
    }
    assert forall|i: int, c: VoxelCoord| #[trigger] shows(*final(b), t, i, c) implies colored(
        color_of,
        c,
        final(b).leaf_color@[color_start(*final(b), i) + ones(
            final(b).leaves@[i]@,
            local_index(c.x, c.y, c.z),
        )],
    ) by {
        assert(shows(*old(b), t, i, c));
    }
}

} // verus!
