//! The ways to a tree agree: a build of a field, a list of bricks, a list of voxels,
//! and a run of edits that arrive at the same voxels arrive at the same tree.

use crate::assemble::{assembled, built_from, collected, last_id};
use crate::cells::{cell_of, law_counts_are_occupied_cells, occupied_cells};
use crate::contents::same_structure;
use crate::coord::VoxelCoord;
use crate::layout::brick_code;
use crate::leaf::{lemma_view_len, LeafBrick};
use crate::occupancy::{BitGrid, OccupancyField};
use crate::resolution::Resolution;
use crate::sparse::{edits, law_structure_determined, lemma_ascending_equal, lemma_same_levels, lemma_slot, lemma_voxel_of, Edit, SparseTree};
use vstd::prelude::*;

verus! {

broadcast use lemma_view_len;

/// `trees` are the states of a tree under these edits, one after the other.
pub open spec fn edit_run(trees: Seq<SparseTree>, run: Seq<(VoxelCoord, bool, Edit)>) -> bool {
    &&& trees.len() == run.len() + 1
    &&& forall|i: int|
        0 <= i < run.len() ==> edits(
            #[trigger] trees[i],
            trees[i + 1],
            run[i].0,
            run[i].1,
            run[i].2,
        )
}

/// `grids` are the states of a dense grid under the same edits.
pub open spec fn grid_run(grids: Seq<BitGrid>, run: Seq<(VoxelCoord, bool, Edit)>) -> bool {
    &&& grids.len() == run.len() + 1
    &&& forall|i: int|
        0 <= i < run.len() ==> (#[trigger] grids[i + 1]).edited(grids[i], run[i].0, run[i].1)
}

/// Tree and grid hold the same voxels after every edit.
proof fn lemma_run_in_step<F: OccupancyField>(
    field: &F,
    trees: Seq<SparseTree>,
    grids: Seq<BitGrid>,
    run: Seq<(VoxelCoord, bool, Edit)>,
    n: int,
)
    requires
        built_from(trees[0], field),
        grids[0].materializes(field),
        edit_run(trees, run),
        grid_run(grids, run),
        0 <= n < trees.len(),
    ensures
        trees[n].wf(),
        trees[n].compact(),
        trees[n].resolution == field.grid(),
        grids[n].spec_resolution() == field.grid(),
        forall|c: VoxelCoord| #[trigger] trees[n].occupied(c) == grids[n].occ(c),
    decreases n,
{
    if n > 0 {
        lemma_run_in_step(field, trees, grids, run, n - 1);
        assert(edits(trees[n - 1], trees[n], run[n - 1].0, run[n - 1].1, run[n - 1].2));
        assert(grids[(n - 1) + 1].edited(grids[n - 1], run[n - 1].0, run[n - 1].1));
        assert forall|c: VoxelCoord| #[trigger] trees[n].occupied(c) == grids[n].occ(c) by {
            assert(trees[n - 1].occupied(c) == grids[n - 1].occ(c));
        }
    }
}

/// Incremental edits match a fresh build: whatever was edited, the tree has the
/// bricks, leaves and node levels of a build of the edited grid, and the same
/// voxels.
pub proof fn law_edits_match_fresh_build<F: OccupancyField>(
    field: &F,
    trees: Seq<SparseTree>,
    grids: Seq<BitGrid>,
    run: Seq<(VoxelCoord, bool, Edit)>,
    fresh: SparseTree,
)
    requires
        built_from(trees[0], field),
        grids[0].materializes(field),
        edit_run(trees, run),
        grid_run(grids, run),
        built_from(fresh, &grids.last()),
    ensures
        same_structure(trees.last(), fresh),
        forall|c: VoxelCoord| #[trigger] trees.last().occupied(c) == grids.last().occ(c),
{
    let n = run.len() as int;
    lemma_run_in_step(field, trees, grids, run, n);
    assert forall|c: VoxelCoord| #[trigger] trees[n].occupied(c) == fresh.occupied(c) by {
        assert(fresh.occupied(c) == (c.within(field.grid()) && grids[n].occ(c)));
    }
    law_structure_determined(trees[n], fresh);
}

/// An edit leaves no stale material behind: a voxel it sets reads the default, and
/// every other voxel keeps its own, also where a brick appearing or disappearing
/// renumbers the leaves.
pub proof fn law_edit_keeps_other_materials(
    a: SparseTree,
    b: SparseTree,
    c: VoxelCoord,
    v: bool,
    r: Edit,
)
    requires
        edits(a, b, c, v, r),
    ensures
        v && r != Edit::Unchanged ==> b.occupied(c) && b.material(c) == 0,
        forall|d: VoxelCoord| d != c ==> #[trigger] b.material(d) == a.material(d),
{
    assert(b.occupied(c) == b.occupied(c));
}

/// The generation counts the topology edits: one up when a brick appears or
/// disappears, unchanged otherwise.
pub proof fn law_generation_counts_topology_edits(
    a: SparseTree,
    b: SparseTree,
    c: VoxelCoord,
    v: bool,
    r: Edit,
)
    requires
        edits(a, b, c, v, r),
        a.topo_gen < u64::MAX,
    ensures
        b.topo_gen == if r == Edit::Topology {
            a.topo_gen + 1
        } else {
            a.topo_gen as int
        },
        r == Edit::Topology <==> a.has_brick(brick_code(c) as int) != b.has_brick(
            brick_code(c) as int,
        ),
{
    if r == Edit::Topology && !v {
        assert(a.occupied(c));
    }
}

/// The ids given to voxel `d` among the first `n` pairs, in order.
pub open spec fn ids_at(voxels: Seq<(VoxelCoord, u16)>, d: VoxelCoord, n: int) -> Seq<u16>
    decreases n,
{
    if n <= 0 {
        Seq::empty()
    } else if voxels[n - 1].0 == d {
        ids_at(voxels, d, n - 1).push(voxels[n - 1].1)
    } else {
        ids_at(voxels, d, n - 1)
    }
}

/// `a` and `b` differ only in the order of pairs of different coords.
pub open spec fn reordered(a: Seq<(VoxelCoord, u16)>, b: Seq<(VoxelCoord, u16)>) -> bool {
    forall|d: VoxelCoord| #[trigger] ids_at(a, d, a.len() as int) == ids_at(b, d, b.len() as int)
}

proof fn lemma_last_of_ids(voxels: Seq<(VoxelCoord, u16)>, d: VoxelCoord, n: int)
    requires
        0 <= n <= voxels.len(),
    ensures
        last_id(voxels, d, n) == if ids_at(voxels, d, n).len() == 0 {
            None
        } else {
            Some(ids_at(voxels, d, n).last())
        },
    decreases n,
{
    if n > 0 {
        lemma_last_of_ids(voxels, d, n - 1);
    }
}

/// The order in which voxels are listed does not matter, as long as pairs of one
/// coord keep theirs: the same bricks, node levels and material grids come out.
pub proof fn law_voxels_in_any_order(
    s: SparseTree,
    t: SparseTree,
    resolution: Resolution,
    a: Seq<(VoxelCoord, u16)>,
    b: Seq<(VoxelCoord, u16)>,
)
    requires
        collected(s, resolution, a),
        collected(t, resolution, b),
        reordered(a, b),
    ensures
        same_structure(s, t),
        s.materials@.len() == t.materials@.len(),
        forall|i: int| 0 <= i < s.materials@.len() ==> (#[trigger] s.materials@[i])@
            == t.materials@[i]@,
{
    assert forall|c: VoxelCoord|
        last_id(a, c, a.len() as int) == #[trigger] last_id(b, c, b.len() as int) by {
        lemma_last_of_ids(a, c, a.len() as int);
        lemma_last_of_ids(b, c, b.len() as int);
        assert(ids_at(a, c, a.len() as int) == ids_at(b, c, b.len() as int));
    }
    assert forall|c: VoxelCoord| #[trigger] s.occupied(c) == t.occupied(c) by {
        assert(last_id(a, c, a.len() as int) == last_id(b, c, b.len() as int));
    }
    law_structure_determined(s, t);
    assert forall|i: int| 0 <= i < s.materials@.len() implies (#[trigger] s.materials@[i])@
        == t.materials@[i]@ by {
        assert forall|m: int| 0 <= m < 512 implies s.materials@[i]@[m] == t.materials@[i]@[m] by {
            if s.leaves@[i]@[m] {
                let c = lemma_voxel_of(s, i, m);
                lemma_slot(s, i);
                lemma_slot(t, i);
                assert(last_id(a, c, a.len() as int) == last_id(b, c, b.len() as int));
                assert(s.material(c) == t.material(c));
            } else {
                assert(s.materials@[i]@[m] == 0 && t.materials@[i]@[m] == 0);
            }
        }
        assert(s.materials@[i]@ =~= t.materials@[i]@);
    }
}

/// The listed voxels set so far are the occupied ones.
proof fn lemma_set_so_far(
    trees: Seq<SparseTree>,
    run: Seq<(VoxelCoord, bool, Edit)>,
    voxels: Seq<(VoxelCoord, u16)>,
    n: int,
)
    requires
        trees[0].wf(),
        trees[0].codes@.len() == 0,
        edit_run(trees, run),
        run.len() == voxels.len(),
        forall|i: int|
            0 <= i < run.len() ==> (#[trigger] run[i]).0 == voxels[i].0 && run[i].1,
        0 <= n <= voxels.len(),
    ensures
        trees[n].wf(),
        trees[n].compact(),
        trees[n].resolution == trees[0].resolution,
        forall|c: VoxelCoord|
            #[trigger] trees[n].occupied(c) == (c.within(trees[0].resolution) && last_id(
                voxels,
                c,
                n,
            ) is Some),
    decreases n,
{
    if n > 0 {
        lemma_set_so_far(trees, run, voxels, n - 1);
        assert(run[n - 1].0 == voxels[n - 1].0);
        assert(edits(trees[n - 1], trees[n], run[n - 1].0, run[n - 1].1, run[n - 1].2));
        assert forall|c: VoxelCoord|
            #[trigger] trees[n].occupied(c) == (c.within(trees[0].resolution) && last_id(
                voxels,
                c,
                n,
            ) is Some) by {
            assert(trees[n - 1].occupied(c) == (c.within(trees[0].resolution) && last_id(
                voxels,
                c,
                n - 1,
            ) is Some));
        }
    }
}

/// Listing voxels and setting them one by one in an empty tree give the same bricks
/// and the same node levels.
pub proof fn law_voxels_match_edits(
    t: SparseTree,
    resolution: Resolution,
    voxels: Seq<(VoxelCoord, u16)>,
    trees: Seq<SparseTree>,
    run: Seq<(VoxelCoord, bool, Edit)>,
)
    requires
        collected(t, resolution, voxels),
        trees[0].wf(),
        trees[0].resolution == resolution,
        trees[0].codes@.len() == 0,
        edit_run(trees, run),
        run.len() == voxels.len(),
        forall|i: int|
            0 <= i < run.len() ==> (#[trigger] run[i]).0 == voxels[i].0 && run[i].1,
    ensures
        same_structure(trees.last(), t),
{
    let n = voxels.len() as int;
    lemma_set_so_far(trees, run, voxels, n);
    law_structure_determined(trees[n], t);
}

/// A listed voxel has a last id, and only a listed one has.
proof fn lemma_listed(voxels: Seq<(VoxelCoord, u16)>, d: VoxelCoord, n: int)
    requires
        0 <= n <= voxels.len(),
    ensures
        last_id(voxels, d, n) is Some <==> exists|i: int|
            0 <= i < n && (#[trigger] voxels[i]).0 == d,
    decreases n,
{
    if n > 0 {
        lemma_listed(voxels, d, n - 1);
        if voxels[n - 1].0 == d {
            assert(voxels[n - 1].0 == d);
        }
    }
}

/// The bricks of the listed voxels that lie in the grid.
pub open spec fn listed_bricks(
    voxels: Seq<(VoxelCoord, u16)>,
    resolution: Resolution,
) -> Set<(nat, nat, nat)> {
    Set::new(
        |cell: (nat, nat, nat)|
            exists|i: int|
                0 <= i < voxels.len() && (#[trigger] voxels[i]).0.within(resolution) && cell_of(
                    voxels[i].0,
                    1,
                ) == cell,
    )
}

/// A tree of listed voxels has exactly those occupied, and one leaf per distinct
/// brick among them.
pub proof fn law_voxels_bin_by_brick(
    t: SparseTree,
    resolution: Resolution,
    voxels: Seq<(VoxelCoord, u16)>,
)
    requires
        collected(t, resolution, voxels),
    ensures
        forall|c: VoxelCoord|
            #[trigger] t.occupied(c) <==> c.within(resolution) && exists|i: int|
                0 <= i < voxels.len() && (#[trigger] voxels[i]).0 == c,
        listed_bricks(voxels, resolution).finite(),
        t.leaves@.len() == listed_bricks(voxels, resolution).len(),
{
    let n = voxels.len() as int;
    assert forall|c: VoxelCoord|
        #[trigger] t.occupied(c) <==> c.within(resolution) && exists|i: int|
            0 <= i < voxels.len() && (#[trigger] voxels[i]).0 == c by {
        lemma_listed(voxels, c, n);
    }
    law_counts_are_occupied_cells(t, 1);
    assert(occupied_cells(t, 1) =~= listed_bricks(voxels, resolution)) by {
        assert forall|cell: (nat, nat, nat)| occupied_cells(t, 1).contains(cell)
            == listed_bricks(voxels, resolution).contains(cell) by {
            if occupied_cells(t, 1).contains(cell) {
                let c = choose|c: VoxelCoord| #[trigger] t.occupied(c) && cell_of(c, 1) == cell;
                let i = choose|i: int| 0 <= i < voxels.len() && (#[trigger] voxels[i]).0 == c;
                assert(voxels[i].0.within(resolution) && cell_of(voxels[i].0, 1) == cell);
            }
            if listed_bricks(voxels, resolution).contains(cell) {
                let i = choose|i: int|
                    0 <= i < voxels.len() && (#[trigger] voxels[i]).0.within(resolution) && cell_of(
                        voxels[i].0,
                        1,
                    ) == cell;
                assert(t.occupied(voxels[i].0) && cell_of(voxels[i].0, 1) == cell);
            }
        }
    }
}

/// The tree of a list of bricks has each brick's voxels, in the brick's place, and
/// no others; every voxel reads the default material.
pub proof fn law_bricks_are_stored(
    t: SparseTree,
    resolution: Resolution,
    bricks: Seq<(u64, LeafBrick)>,
    c: VoxelCoord,
)
    requires
        assembled(t, resolution, bricks),
        c.within(resolution),
    ensures
        t.leaves@.len() == bricks.len(),
        forall|i: int|
            0 <= i < bricks.len() && (#[trigger] bricks[i]).0 == brick_code(c) ==> t.occupied(c)
                == bricks[i].1.occ(c.x, c.y, c.z),
        (forall|i: int| 0 <= i < bricks.len() ==> (#[trigger] bricks[i]).0 != brick_code(c))
            ==> !t.occupied(c),
        t.material(c) == 0,
{
    crate::morton::lemma_local_range(c.x, c.y, c.z);
    if t.occupied(c) {
        let s = t.slot(brick_code(c) as int);
        assert(bricks.contains((t.codes@[s], t.leaves@[s])));
        let i = choose|i: int| 0 <= i < bricks.len() && bricks[i] == (t.codes@[s], t.leaves@[s]);
        assert(bricks[i].0 == brick_code(c));
    }
}

/// A brick of one list is a brick of the tree of the other.
proof fn lemma_brick_shared(
    s: SparseTree,
    t: SparseTree,
    resolution: Resolution,
    a: Seq<(u64, LeafBrick)>,
    b: Seq<(u64, LeafBrick)>,
    i: int,
)
    requires
        assembled(s, resolution, a),
        assembled(t, resolution, b),
        a.to_multiset() == b.to_multiset(),
        0 <= i < s.codes@.len(),
    ensures
        t.has_brick(s.codes@[i] as int),
        t.leaves@[t.slot(s.codes@[i] as int)] == s.leaves@[i],
{
    let e = (s.codes@[i], s.leaves@[i]);
    assert(a.contains(e));
    a.to_multiset_ensures();
    b.to_multiset_ensures();
    assert(a.to_multiset().count(e) > 0);
    assert(b.contains(e));
    let j = choose|j: int| 0 <= j < b.len() && b[j] == e;
    assert(t.has_brick(b[j].0 as int));
}

/// Bricks may be listed in any order: the same codes, leaves and node levels come
/// out.
pub proof fn law_bricks_in_any_order(
    s: SparseTree,
    t: SparseTree,
    resolution: Resolution,
    a: Seq<(u64, LeafBrick)>,
    b: Seq<(u64, LeafBrick)>,
)
    requires
        assembled(s, resolution, a),
        assembled(t, resolution, b),
        a.to_multiset() == b.to_multiset(),
    ensures
        same_structure(s, t),
{
    assert forall|i: int| 0 <= i < s.codes@.len() implies #[trigger] t.has_brick(
        s.codes@[i] as int,
    ) by {
        lemma_brick_shared(s, t, resolution, a, b, i);
    }
    assert forall|i: int| 0 <= i < t.codes@.len() implies #[trigger] s.has_brick(
        t.codes@[i] as int,
    ) by {
        lemma_brick_shared(t, s, resolution, b, a, i);
    }
    lemma_ascending_equal(s, t);
    assert forall|i: int| 0 <= i < s.leaves@.len() implies s.leaves@[i] == t.leaves@[i] by {
        lemma_brick_shared(s, t, resolution, a, b, i);
        lemma_slot(t, i);
    }
    assert(s.leaves@ =~= t.leaves@);
    lemma_same_levels(s.nodes@, t.nodes@, s.codes@, resolution.levels() as nat);
}

} // verus!
