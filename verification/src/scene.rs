//! An editable scene: a tree, the single-buffer layout serialized from it, and
//! what a renderer still has to upload after an edit.

use crate::brush::{brick_change, bricks_follow, increasing, stamp, stamps, stamps_in_place, toggle_count, touches_leaf, Stamp};
use crate::coord::VoxelCoord;
use crate::layout::{leaf_of, stores};
use crate::leaf::LeafBounds;
use crate::levels::MAX_CELLS;
use crate::palette::STRIDE_W;
use crate::school_b::{bounds_word, SchoolBBuffer};
use crate::sparse::{codable, lemma_node_total_bound, lemma_nodes_indexable, nodes_indexable, SparseTree};
use vstd::prelude::*;

verus! {

/// What a renderer has to upload after an edit.
#[derive(Debug, Clone)]
pub enum Upload {
    /// Nothing changed.
    Nothing,
    /// These leaves changed in place: patch their words and bounds.
    Leaves(Vec<u32>),
    /// The whole structure.
    Full,
}

/// The outcome of an edit.
#[derive(Debug, Clone)]
pub struct Stroke {
    /// Voxels actually changed (not counting no-ops within the brush).
    pub changed: u64,
    /// Whether the stroke changed topology (forcing a full upload) vs only
    /// in-place leaf patches.
    pub topology: bool,
    /// What to upload.
    pub upload: Upload,
}

/// A tree and its serialized buffer, kept in step across edits.
#[derive(Debug, Clone)]
pub struct Scene {
    /// The live tree.
    pub tree: SparseTree,
    /// Its single-buffer layout.
    pub structure: SchoolBBuffer,
    /// Set while a full upload is owed: an earlier one failed, so the renderer's
    /// buffers are stale and the next edit must not patch into them.
    pub needs_full_upload: bool,
}

/// The tree's nodes and leaves fit `u32` indices, and its material slots are
/// addressable.
pub open spec fn serializable(t: SparseTree) -> bool {
    &&& nodes_indexable(t)
    &&& STRIDE_W * t.leaves@.len() <= usize::MAX
}

/// A tree over this grid with `bricks` bricks is serializable, whatever its
/// shape.
pub open spec fn has_room(levels: nat, bricks: nat) -> bool {
    &&& levels <= 5 || {
        &&& bricks <= MAX_CELLS
        &&& levels * bricks <= MAX_CELLS
        &&& levels * bricks <= usize::MAX
    }
    &&& STRIDE_W * bricks <= usize::MAX
}

/// The buffers hold the same material slots, the same baked colours and the same
/// transparency bits.
pub open spec fn same_surface(a: SchoolBBuffer, b: SchoolBBuffer) -> bool {
    &&& b.leaf_mat == a.leaf_mat
    &&& b.leaf_color == a.leaf_color
    &&& b.leaf_color_base == a.leaf_color_base
    &&& b.has_transparency == a.has_transparency
    &&& b.leaf_bounds@.len() == a.leaf_bounds@.len()
    &&& forall|i: int|
        0 <= i < a.leaf_bounds@.len() ==> (#[trigger] b.leaf_bounds@[i])
            & LeafBounds::TRANSPARENCY_BIT == a.leaf_bounds@[i] & LeafBounds::TRANSPARENCY_BIT
}

impl Scene {
    /// The buffer holds exactly the tree's structure.
    pub open spec fn in_step(self) -> bool {
        &&& self.tree.wf()
        &&& serializable(self.tree)
        &&& self.structure.structure_of(self.tree)
    }

    /// What a stroke uploads: nothing where it changed nothing, everything where
    /// the topology changed or a full upload is owed, else the changed leaves.
    pub open spec fn decides(self, r: Stroke) -> bool {
        &&& r.upload is Nothing <==> r.changed == 0
        &&& r.upload is Full <==> r.changed > 0 && (r.topology || self.needs_full_upload)
    }

    /// The scene after a full upload that went through (`ok`) or failed.
    pub open spec fn after_upload(self, ok: bool) -> Scene {
        Scene { needs_full_upload: !ok, ..self }
    }

    /// Serializes a tree into a scene.
    pub fn new(tree: SparseTree) -> (r: Self)
        requires
            tree.wf(),
            serializable(tree),
        ensures
            r.in_step(),
            r.tree == tree,
            r.structure.materials_of(tree),
            r.structure.unbaked(),
            r.structure.flag_in_step(),
            !r.needs_full_upload,
    {
        let structure: SchoolBBuffer = SchoolBBuffer::from_sparse(&tree);
        Scene { tree, structure, needs_full_upload: false }
    }

    /// Sets (`add`) or clears the voxels of a brush, brings the buffer back in
    /// step with the tree, and says what to upload. A stroke that changed
    /// topology re-serializes the structure once, materials and all; otherwise
    /// indices are stable and only the touched leaves' words and bounds are
    /// patched, unless a full upload is owed.
    pub fn apply_brush(&mut self, coords: &[VoxelCoord], add: bool) -> (r: Stroke)
        requires
            old(self).in_step(),
            forall|i: int|
                0 <= i < coords@.len() ==> codable(
                    #[trigger] coords@[i],
                    old(self).tree.resolution,
                ),
            has_room(
                old(self).tree.resolution.levels() as nat,
                old(self).tree.codes@.len() + coords@.len(),
            ),
        ensures
            final(self).in_step(),
            old(self).tree.compact() ==> final(self).tree.compact(),
            stamps(old(self).tree, final(self).tree, coords@, add),
            final(self).needs_full_upload == old(self).needs_full_upload,
            r.changed == toggle_count(old(self).tree, coords@, coords@.len() as int, add),
            r.changed == 0 ==> *final(self) == *old(self),
            r.topology <==> final(self).tree.codes@ != old(self).tree.codes@,
            bricks_follow(old(self).tree, final(self).tree, add, r.topology),
            final(self).tree.topo_gen == old(self).tree.topo_gen.wrapping_add(
                brick_change(old(self).tree, final(self).tree) as u64,
            ),
            r.topology ==> final(self).structure.materials_of(final(self).tree),
            r.topology ==> final(self).structure.unbaked(),
            !r.topology ==> same_surface(old(self).structure, final(self).structure),
            old(self).structure.flag_in_step() ==> final(self).structure.flag_in_step(),
            old(self).decides(r),
            r.upload matches Upload::Leaves(v) ==> {
                &&& increasing(v@)
                &&& stamps_in_place(old(self).tree, final(self).tree, coords@, add)
                &&& forall|i: u32|
                    #[trigger] v@.contains(i) <==> touches_leaf(
                        old(self).tree,
                        coords@,
                        add,
                        i as int,
                    )
            },
    {
        let ghost before = *self;
        let s: Stamp = stamp(&mut self.tree, coords, add);
        proof {
            lemma_room_shrinks(
                before.tree.resolution.levels() as nat,
                self.tree.codes@.len(),
                before.tree.codes@.len() + coords@.len(),
            );
        }
        if s.changed == 0 {
            return Stroke { changed: 0, topology: s.topology, upload: Upload::Nothing };
        }
        if s.topology {
            proof {
                lemma_node_total_bound(self.tree, self.tree.nodes@.len() as int);
            }
            self.reserialize();
            return Stroke { changed: s.changed, topology: true, upload: Upload::Full };
        }
        proof {
            lemma_untouched(before.tree, self.tree, coords@, add, s.touched@);
        }
        self.patch_leaves(&s.touched, Ghost(before.tree));
        let upload = if self.needs_full_upload {
            Upload::Full
        } else {
            Upload::Leaves(s.touched)
        };
        Stroke { changed: s.changed, topology: false, upload }
    }

    /// Serializes the tree afresh.
    fn reserialize(&mut self)
        requires
            old(self).tree.wf(),
            serializable(old(self).tree),
        ensures
            final(self).tree == old(self).tree,
            final(self).needs_full_upload == old(self).needs_full_upload,
            final(self).structure.structure_of(old(self).tree),
            final(self).structure.materials_of(old(self).tree),
            final(self).structure.unbaked(),
            final(self).structure.flag_in_step(),
    {
        self.structure = SchoolBBuffer::from_sparse(&self.tree);
    }

    /// Patches the listed leaves of the buffer from the tree.
    fn patch_leaves(&mut self, touched: &Vec<u32>, before: Ghost<SparseTree>)
        requires
            before@.wf(),
            old(self).tree.wf(),
            old(self).structure.structure_of(before@),
            old(self).tree.resolution == before@.resolution,
            old(self).tree.codes@ == before@.codes@,
            old(self).tree.nodes@ == before@.nodes@,
            old(self).tree.topo_gen == before@.topo_gen,
            forall|i: int|
                0 <= i < touched@.len() ==> (#[trigger] touched@[i]) < before@.leaves@.len(),
            forall|j: u32|
                j < before@.leaves@.len() && !#[trigger] touched@.contains(j) ==> old(
                    self,
                ).tree.leaves@[j as int] == before@.leaves@[j as int],
        ensures
            final(self).tree == old(self).tree,
            final(self).needs_full_upload == old(self).needs_full_upload,
            final(self).structure.structure_of(old(self).tree),
            same_surface(old(self).structure, final(self).structure),
            old(self).structure.flag_in_step() ==> final(self).structure.flag_in_step(),
    {
        let ghost t1 = self.tree;
        let ghost s0 = self.structure;
        let mut n: usize = 0;
        while n < touched.len()
            invariant
                n <= touched@.len(),
                self.tree == t1,
                self.needs_full_upload == old(self).needs_full_upload,
                t1.topo_gen == before@.topo_gen,
                t1.leaves@.len() == before@.leaves@.len(),
                before@.leaves@.len() <= MAX_CELLS,
                forall|i: int|
                    0 <= i < touched@.len() ==> (#[trigger] touched@[i]) < before@.leaves@.len(),
                s0.structure_of(before@),
                self.structure.resolution == s0.resolution,
                self.structure.nodes == s0.nodes,
                self.structure.source_gen == s0.source_gen,
                self.structure.leaves@.len() == s0.leaves@.len(),
                self.structure.leaf_bounds@.len() == s0.leaves@.len(),
                same_surface(s0, self.structure),
                s0.flag_in_step() ==> self.structure.flag_in_step(),
                forall|j: int|
                    0 <= j < s0.leaves@.len() ==> #[trigger] self.structure.leaves@[j]
                        == if touched@.take(n as int).contains(j as u32) {
                        t1.leaves@[j]
                    } else {
                        before@.leaves@[j]
                    },
                forall|j: int|
                    0 <= j < s0.leaves@.len() ==> bounds_word(
                        #[trigger] self.structure.leaf_bounds@[j],
                        self.structure.leaves@[j],
                    ),
            decreases touched@.len() - n,
        {
            let ghost was = self.structure;
            let idx: u32 = touched[n];
            assert(touched@[n as int] < before@.leaves@.len());
            self.structure.patch_leaf(&self.tree, idx);
            proof {
                let (head, next) = (touched@.take(n as int), touched@.take(n + 1));
                assert forall|j: int| 0 <= j < s0.leaves@.len() implies
                    #[trigger] self.structure.leaves@[j] == if next.contains(j as u32) {
                    t1.leaves@[j]
                } else {
                    before@.leaves@[j]
                } by {
                    assert(was.leaves@[j] == if head.contains(j as u32) {
                        t1.leaves@[j]
                    } else {
                        before@.leaves@[j]
                    });
                    assert(next =~= head.push(idx));
                    if head.contains(j as u32) {
                        let i = choose|i: int| 0 <= i < head.len() && head[i] == j as u32;
                        assert(next[i] == j as u32);
                    }
                    if j == idx {
                        assert(next[n as int] == j as u32);
                    } else if next.contains(j as u32) {
                        let i = choose|i: int| 0 <= i < next.len() && next[i] == j as u32;
                        assert(head[i] == j as u32);
                    }
                }
                assert forall|j: int| 0 <= j < s0.leaves@.len() implies bounds_word(
                    #[trigger] self.structure.leaf_bounds@[j],
                    self.structure.leaves@[j],
                ) by {
                    if j != idx {
                        assert(bounds_word(was.leaf_bounds@[j], was.leaves@[j]));
                        assert(self.structure.leaf_bounds@[j] == was.leaf_bounds@[j]);
                        assert(self.structure.leaves@[j] == was.leaves@[j]);
                    }
                }
            }
            n = n + 1;
        }
        proof {
            assert(touched@.take(n as int) =~= touched@);
            assert(self.structure.leaves@ =~= t1.leaves@) by {
                assert forall|j: int| 0 <= j < s0.leaves@.len() implies
                    self.structure.leaves@[j] == t1.leaves@[j] by {
                    assert(touched@.contains(j as u32) || !touched@.contains(j as u32));
                }
            }
        }
    }

    /// Records whether a full upload went through. One that failed is owed
    /// again on the next edit.
    pub fn uploaded(&mut self, ok: bool)
        ensures
            *final(self) == old(self).after_upload(ok),
    {
        self.needs_full_upload = !ok;
    }
}

/// Fewer bricks need no more room.
proof fn lemma_room_shrinks(levels: nat, a: nat, b: nat)
    requires
        has_room(levels, b),
        a <= b,
    ensures
        has_room(levels, a),
{
    assert(levels * a <= levels * b && STRIDE_W * a <= STRIDE_W * b) by (nonlinear_arith)
        requires
            a <= b,
    ;
}

/// What a stamp without topology change leaves alone.
proof fn lemma_untouched(
    a: SparseTree,
    b: SparseTree,
    coords: Seq<VoxelCoord>,
    add: bool,
    touched: Seq<u32>,
)
    requires
        a.wf(),
        stamps_in_place(a, b, coords, add),
        forall|i: u32| #[trigger] touched.contains(i) <==> touches_leaf(a, coords, add, i as int),
    ensures
        forall|i: int| 0 <= i < touched.len() ==> (#[trigger] touched[i]) < a.leaves@.len(),
        forall|j: u32|
            j < a.leaves@.len() && !#[trigger] touched.contains(j) ==> b.leaves@[j as int]
                == a.leaves@[j as int],
{
    assert forall|i: int| 0 <= i < touched.len() implies (#[trigger] touched[i])
        < a.leaves@.len() by {
        assert(touched.contains(touched[i]));
    }
}

/// What a scene's buffer stores is what its tree holds, in the same leaf slots,
/// after any edit.
pub proof fn law_scene_stores_tree(s: Scene, c: VoxelCoord)
    requires
        s.in_step(),
    ensures
        stores(&s.structure, c) == s.tree.occupied(c),
        leaf_of(&s.structure, c) == s.tree.leaf_cell(c),
{
    lemma_nodes_indexable(s.tree);
    crate::school_b::law_layouts_agree(s.structure, s.tree, c);
}

/// A failed upload is owed: whatever the next edit changes, in place or not, is
/// then uploaded in full, until an upload goes through. An edit that changes
/// nothing uploads nothing.
pub proof fn law_failed_upload_is_owed(s: Scene, r: Stroke)
    ensures
        s.after_upload(false).decides(r) && r.changed > 0 ==> r.upload is Full,
        s.after_upload(true).decides(r) && r.changed > 0 && !r.topology ==> r.upload is Leaves,
        s.decides(r) && r.topology && r.changed > 0 ==> r.upload is Full,
        s.decides(r) ==> (r.upload is Nothing <==> r.changed == 0),
        s.after_upload(false).tree == s.tree && s.after_upload(false).structure == s.structure,
        s.after_upload(true).tree == s.tree && s.after_upload(true).structure == s.structure,
{
}

/// The leaves to patch are all that changed: outside them a stroke that keeps the
/// topology leaves every leaf of the buffer as the renderer has it, in its slot.
pub proof fn law_unlisted_leaves_are_unchanged(
    a: Scene,
    b: Scene,
    coords: Seq<VoxelCoord>,
    add: bool,
    listed: Seq<u32>,
    j: int,
)
    requires
        a.in_step(),
        b.in_step(),
        stamps_in_place(a.tree, b.tree, coords, add),
        forall|i: u32|
            #[trigger] listed.contains(i) <==> touches_leaf(a.tree, coords, add, i as int),
        0 <= j < a.structure.leaves@.len(),
        !listed.contains(j as u32),
        a.structure.leaves@.len() <= u32::MAX,
    ensures
        b.structure.leaves@.len() == a.structure.leaves@.len(),
        b.structure.leaves@[j] == a.structure.leaves@[j],
{
    assert(j as u32 as int == j);
    assert(!touches_leaf(a.tree, coords, add, j));
}

/// A stroke keeps buffer and tree in step: after it the buffer stores what the
/// tree holds, which is the brush's voxels set or cleared and all others as
/// before; what is to upload follows from what changed.
pub proof fn law_stroke_keeps_step(
    s: &mut Scene,
    coords: &[VoxelCoord],
    add: bool,
    r: Stroke,
    v: VoxelCoord,
)
    requires
        old(s).in_step(),
        forall|i: int|
            0 <= i < coords@.len() ==> codable(#[trigger] coords@[i], old(s).tree.resolution),
        has_room(
            old(s).tree.resolution.levels() as nat,
            old(s).tree.codes@.len() + coords@.len(),
        ),
        call_ensures(Scene::apply_brush, (s, coords, add), r),
    ensures
        final(s).in_step(),
        stores(&final(s).structure, v) == final(s).tree.occupied(v),
        coords@.contains(v) && v.within(old(s).tree.resolution) ==> stores(
            &final(s).structure,
            v,
        ) == add,
        !coords@.contains(v) ==> stores(&final(s).structure, v) == stores(&old(s).structure, v),
        old(s).decides(r),
        final(s).needs_full_upload == old(s).needs_full_upload,
        r.changed == 0 ==> *final(s) == *old(s),
        r.topology <==> final(s).tree.codes@ != old(s).tree.codes@,
        !r.topology ==> final(s).structure.leaf_mat == old(s).structure.leaf_mat
            && final(s).structure.leaf_color == old(s).structure.leaf_color
            && final(s).structure.leaf_color_base == old(s).structure.leaf_color_base
            && final(s).structure.has_transparency == old(s).structure.has_transparency,
        r.upload matches Upload::Leaves(u) ==> forall|j: int, k: int|
            0 <= j < k < u@.len() ==> u@[j] < u@[k],
        r.upload matches Upload::Leaves(u) ==> forall|i: u32| #[trigger]
            u@.contains(i) <==> touches_leaf(old(s).tree, coords@, add, i as int),
{
    law_scene_stores_tree(*final(s), v);
    law_scene_stores_tree(*old(s), v);
    assert(final(s).tree.occupied(v) == final(s).tree.occupied(v));
}

/// A new scene stores its tree and owes nothing; a failed upload is recorded as
/// owed and a good one as paid, with the scene itself unchanged.
pub proof fn law_scene_calls(tree: SparseTree, s: Scene, u: &mut Scene, ok: bool, v: VoxelCoord)
    requires
        tree.wf(),
        serializable(tree),
        call_ensures(Scene::new, (tree,), s),
        call_ensures(Scene::uploaded, (u, ok), ()),
    ensures
        s.in_step() && s.tree == tree && !s.needs_full_upload,
        stores(&s.structure, v) == tree.occupied(v),
        final(u).needs_full_upload <==> !ok,
        final(u).tree == old(u).tree && final(u).structure == old(u).structure,
{
    law_scene_stores_tree(s, v);
}

} // verus!
