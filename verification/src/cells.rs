//! Which cells a tree stores: at every level exactly the aligned cells that hold
//! an occupied voxel, each once.

use crate::assemble::built_from;
use crate::bits::ones;
use crate::coord::VoxelCoord;
use crate::layout::brick_code;
use crate::leaf::lemma_view_len;
use crate::level::Level;
use crate::levels::{ancestor, ascending, is_level, lemma_ancestor_morton, lemma_ancestor_stored, lemma_stored_ancestor, level_codes, MAX_CELLS};
use crate::measure::{is_footprint, LevelFootprint};
use crate::morton::{law_morton_injective, lemma_local_range, local_index, morton};
use crate::occupancy::OccupancyField;
use crate::resolution::{lemma_pow4_increases, pow4};
use crate::sparse::{lemma_level_len, lemma_same_voxel, lemma_slot, lemma_voxel_of, voxel_total, SparseTree};
use vstd::arithmetic::div_mod::lemma_div_denominator;
use vstd::prelude::*;

verus! {

broadcast use lemma_view_len;

/// The edge of a cell at traversal `level`, in voxels: 8 at the leaf bricks
/// (level 1), times 4 per level above.
pub open spec fn cell_edge(level: nat) -> nat {
    8 * pow4((level - 1) as nat)
}

/// The aligned cell of traversal `level` that holds voxel `c`.
pub open spec fn cell_of(c: VoxelCoord, level: nat) -> (nat, nat, nat) {
    (
        c.x as nat / cell_edge(level),
        c.y as nat / cell_edge(level),
        c.z as nat / cell_edge(level),
    )
}

/// The aligned cells of traversal `level` that hold an occupied voxel of the tree.
pub open spec fn occupied_cells(t: SparseTree, level: nat) -> Set<(nat, nat, nat)> {
    Set::new(
        |cell: (nat, nat, nat)|
            exists|c: VoxelCoord| #[trigger] t.occupied(c) && cell_of(c, level) == cell,
    )
}

/// The aligned cells of traversal `level` that hold an occupied voxel of the
/// field.
pub open spec fn field_cells<F: OccupancyField>(field: &F, level: nat) -> Set<(nat, nat, nat)> {
    Set::new(
        |cell: (nat, nat, nat)|
            exists|c: VoxelCoord| #[trigger]
                field.occ(c) && c.within(field.grid()) && cell_of(c, level) == cell,
    )
}

/// The code of `c`'s cell is the Morton code of its place.
proof fn lemma_cell_code(c: VoxelCoord, level: nat)
    requires
        level >= 1,
    ensures
        ancestor(brick_code(c), (level - 1) as nat) == morton(
            cell_of(c, level).0,
            cell_of(c, level).1,
            cell_of(c, level).2,
        ),
{
    let j = (level - 1) as nat;
    lemma_pow4_increases(0, j);
    let p = pow4(j) as int;
    lemma_ancestor_morton((c.x / 8) as nat, (c.y / 8) as nat, (c.z / 8) as nat, j);
    lemma_div_denominator(c.x as int, 8, p);
    lemma_div_denominator(c.y as int, 8, p);
    lemma_div_denominator(c.z as int, 8, p);
}

/// Voxels have the same cell exactly when their bricks have the same ancestor.
proof fn lemma_same_cell(c: VoxelCoord, d: VoxelCoord, level: nat)
    requires
        level >= 1,
    ensures
        cell_of(c, level) == cell_of(d, level) <==> ancestor(brick_code(c), (level - 1) as nat)
            == ancestor(brick_code(d), (level - 1) as nat),
{
    lemma_cell_code(c, level);
    lemma_cell_code(d, level);
    let (x, y) = (cell_of(c, level), cell_of(d, level));
    if morton(x.0, x.1, x.2) == morton(y.0, y.1, y.2) {
        law_morton_injective(x.0, x.1, x.2, y.0, y.1, y.2);
    }
}

/// A stored cell holds an occupied voxel.
proof fn lemma_cell_voxel(t: SparseTree, level: nat, p: int) -> (c: VoxelCoord)
    requires
        t.wf(),
        t.compact(),
        1 <= level <= t.resolution.levels() + 1,
        0 <= p < level_codes(t.nodes@, t.codes@, level).len(),
    ensures
        t.occupied(c),
        ancestor(brick_code(c), (level - 1) as nat) == level_codes(t.nodes@, t.codes@, level)[p],
{
    let i = lemma_stored_ancestor(t.nodes@, t.codes@, t.resolution.levels() as nat, level, p);
    assert(!t.leaves@[i].vacant());
    let m = choose|m: int| 0 <= m < 512 && #[trigger] t.leaves@[i]@[m];
    lemma_voxel_of(t, i, m)
}

/// Only non-empty cells are stored, and all of them: the codes of a level list,
/// in ascending order, exactly the codes of the cells that hold an occupied voxel.
pub proof fn law_levels_list_occupied_cells(t: SparseTree, level: nat)
    requires
        t.wf(),
        t.compact(),
        1 <= level <= t.resolution.levels() + 1,
    ensures
        ascending(level_codes(t.nodes@, t.codes@, level)),
        forall|code: nat|
            #![trigger stored_code(t, level, code)]
            stored_code(t, level, code) <==> exists|c: VoxelCoord| #[trigger]
                t.occupied(c) && ancestor(brick_code(c), (level - 1) as nat) == code,
{
    let k = t.resolution.levels() as nat;
    let codes = level_codes(t.nodes@, t.codes@, level);
    if level >= 2 {
        assert(is_level(
            level_codes(t.nodes@, t.codes@, (level - 1) as nat),
            t.nodes@[level as int]@,
            codes,
        ));
    }
    assert forall|code: nat|
        #![trigger stored_code(t, level, code)]
        stored_code(t, level, code) <==> exists|c: VoxelCoord| #[trigger]
            t.occupied(c) && ancestor(brick_code(c), (level - 1) as nat) == code by {
        if stored_code(t, level, code) {
            let p = choose|p: int| 0 <= p < codes.len() && #[trigger] codes[p] == code;
            let c = lemma_cell_voxel(t, level, p);
            assert(t.occupied(c) && ancestor(brick_code(c), (level - 1) as nat) == code);
        }
        if exists|c: VoxelCoord| #[trigger]
            t.occupied(c) && ancestor(brick_code(c), (level - 1) as nat) == code {
            let c = choose|c: VoxelCoord| #[trigger]
                t.occupied(c) && ancestor(brick_code(c), (level - 1) as nat) == code;
            let i = t.slot(brick_code(c) as int);
            let p = lemma_ancestor_stored(t.nodes@, t.codes@, k, i, level);
            assert(codes[p] == code);
        }
    }
}

/// A cell with this code is stored at `level`.
pub open spec fn stored_code(t: SparseTree, level: nat, code: nat) -> bool {
    exists|p: int|
        0 <= p < level_codes(t.nodes@, t.codes@, level).len() && #[trigger] level_codes(
            t.nodes@,
            t.codes@,
            level,
        )[p] == code
}

/// The counts are those of the occupied cells: a tree without empty bricks has as
/// many leaves as there are `8³` bricks with an occupied voxel, and as many nodes
/// at level `L` as there are aligned cells of that level with one.
pub proof fn law_counts_are_occupied_cells(t: SparseTree, level: nat)
    requires
        t.wf(),
        t.compact(),
        1 <= level <= t.resolution.levels() + 1,
    ensures
        occupied_cells(t, level).finite(),
        occupied_cells(t, level).len() == if level == 1 {
            t.leaves@.len()
        } else {
            t.nodes@[level as int]@.len()
        },
{
    broadcast use vstd::seq_lib::seq_to_set_is_finite;

    let k = t.resolution.levels() as nat;
    let codes = level_codes(t.nodes@, t.codes@, level);
    lemma_level_len(t.nodes@, t.codes@, k, level);
    law_levels_list_occupied_cells(t, level);
    let cells = Seq::new(
        codes.len(),
        |p: int|
            cell_of(
                choose|c: VoxelCoord| #[trigger]
                    t.occupied(c) && ancestor(brick_code(c), (level - 1) as nat) == codes[p],
                level,
            ),
    );
    assert forall|p: int| 0 <= p < codes.len() implies exists|c: VoxelCoord| #[trigger]
        t.occupied(c) && ancestor(brick_code(c), (level - 1) as nat) == codes[p] && cell_of(
            c,
            level,
        ) == #[trigger] cells[p] by {
        let w = lemma_cell_voxel(t, level, p);
        let c = choose|c: VoxelCoord| #[trigger]
            t.occupied(c) && ancestor(brick_code(c), (level - 1) as nat) == codes[p];
        assert(t.occupied(c));
    }
    assert forall|p: int, q: int| 0 <= p < q < cells.len() implies cells[p] != cells[q] by {
        let c = choose|c: VoxelCoord| #[trigger]
            t.occupied(c) && ancestor(brick_code(c), (level - 1) as nat) == codes[p] && cell_of(
                c,
                level,
            ) == cells[p];
        let d = choose|d: VoxelCoord| #[trigger]
            t.occupied(d) && ancestor(brick_code(d), (level - 1) as nat) == codes[q] && cell_of(
                d,
                level,
            ) == cells[q];
        assert(codes[p] < codes[q]);
        lemma_same_cell(c, d, level);
    }
    assert(cells.no_duplicates());
    cells.unique_seq_to_set();
    assert(cells.to_set() =~= occupied_cells(t, level)) by {
        assert forall|cell: (nat, nat, nat)| cells.to_set().contains(cell)
            == occupied_cells(t, level).contains(cell) by {
            if cells.to_set().contains(cell) {
                let p = choose|p: int| 0 <= p < cells.len() && cells[p] == cell;
                let c = choose|c: VoxelCoord| #[trigger]
                    t.occupied(c) && ancestor(brick_code(c), (level - 1) as nat) == codes[p]
                        && cell_of(c, level) == cells[p];
                assert(t.occupied(c) && cell_of(c, level) == cell);
            }
            if occupied_cells(t, level).contains(cell) {
                let d = choose|d: VoxelCoord| #[trigger]
                    t.occupied(d) && cell_of(d, level) == cell;
                let i = t.slot(brick_code(d) as int);
                let p = lemma_ancestor_stored(t.nodes@, t.codes@, k, i, level);
                let c = choose|c: VoxelCoord| #[trigger]
                    t.occupied(c) && ancestor(brick_code(c), (level - 1) as nat) == codes[p]
                        && cell_of(c, level) == cells[p];
                lemma_same_cell(c, d, level);
                assert(cells[p] == cell);
            }
        }
    }
}

/// A build stores only non-empty cells: as many leaves, and as many nodes at every
/// level, as the field has bricks and cells with an occupied voxel.
pub proof fn law_build_counts_field_cells<F: OccupancyField>(
    t: SparseTree,
    field: &F,
    level: nat,
)
    requires
        built_from(t, field),
        1 <= level <= t.resolution.levels() + 1,
    ensures
        field_cells(field, level).finite(),
        field_cells(field, level).len() == if level == 1 {
            t.leaves@.len()
        } else {
            t.nodes@[level as int]@.len()
        },
        forall|c: VoxelCoord| #[trigger] t.material(c) == 0,
{
    law_counts_are_occupied_cells(t, level);
    assert(occupied_cells(t, level) =~= field_cells(field, level)) by {
        assert forall|cell: (nat, nat, nat)| occupied_cells(t, level).contains(cell)
            == field_cells(field, level).contains(cell) by {
            if occupied_cells(t, level).contains(cell) {
                let c = choose|c: VoxelCoord| #[trigger]
                    t.occupied(c) && cell_of(c, level) == cell;
                assert(field.occ(c));
            }
            if field_cells(field, level).contains(cell) {
                let c = choose|c: VoxelCoord| #[trigger]
                    field.occ(c) && c.within(field.grid()) && cell_of(c, level) == cell;
                assert(t.occupied(c));
            }
        }
    }
    assert forall|c: VoxelCoord| #[trigger] t.material(c) == 0 by {
        lemma_local_range(c.x, c.y, c.z);
    }
}

/// The occupied voxels of a tree.
pub open spec fn occupied_set(t: SparseTree) -> Set<VoxelCoord> {
    Set::new(|c: VoxelCoord| t.occupied(c))
}

/// `c` is an occupied voxel of the leaves before `i`, or one of leaf `i` before
/// Morton index `m`.
spec fn counted(t: SparseTree, i: int, m: int, c: VoxelCoord) -> bool {
    let s = t.slot(brick_code(c) as int);
    t.occupied(c) && (s < i || (s == i && local_index(c.x, c.y, c.z) < m))
}

proof fn lemma_counted(t: SparseTree, i: int, m: int)
    requires
        t.wf(),
        0 <= i < t.leaves@.len(),
        0 <= m <= 512,
    ensures
        Set::new(|c: VoxelCoord| counted(t, i, m, c)).finite(),
        Set::new(|c: VoxelCoord| counted(t, i, m, c)).len() == voxel_total(t.leaves@, i) + ones(
            t.leaves@[i]@,
            m,
        ),
    decreases i, m,
{
    let here = Set::new(|c: VoxelCoord| counted(t, i, m, c));
    if m > 0 {
        lemma_counted(t, i, m - 1);
        let before = Set::new(|c: VoxelCoord| counted(t, i, m - 1, c));
        let v = lemma_voxel_of(t, i, m - 1);
        lemma_slot(t, i);
        assert forall|c: VoxelCoord| counted(t, i, m, c) implies #[trigger] counted(
            t,
            i,
            m - 1,
            c,
        ) || c == v by {
            let s = t.slot(brick_code(c) as int);
            if s == i && local_index(c.x, c.y, c.z) == m - 1 {
                assert(t.codes@[s] == brick_code(c));
                lemma_same_voxel(c, v);
            }
        }
        if t.leaves@[i]@[m - 1] {
            assert(here =~= before.insert(v));
        } else {
            assert(here =~= before);
        }
    } else if i > 0 {
        lemma_counted(t, i - 1, 512);
        assert forall|c: VoxelCoord| #[trigger] counted(t, i, 0, c) == counted(
            t,
            i - 1,
            512,
            c,
        ) by {
            lemma_local_range(c.x, c.y, c.z);
        }
        assert(here =~= Set::new(|c: VoxelCoord| counted(t, i - 1, 512, c)));
    } else {
        assert(here =~= Set::empty()) by {
            assert forall|c: VoxelCoord| !#[trigger] here.contains(c) by {
                if t.occupied(c) {
                    assert(0 <= t.slot(brick_code(c) as int));
                    lemma_local_range(c.x, c.y, c.z);
                }
            }
        }
    }
}

/// The set bits of the leaves are the occupied voxels, each counted once.
pub proof fn law_total_is_occupied_voxels(t: SparseTree)
    requires
        t.wf(),
    ensures
        occupied_set(t).finite(),
        occupied_set(t).len() == voxel_total(t.leaves@, t.leaves@.len() as int),
{
    let n = t.leaves@.len() as int;
    if n > 0 {
        lemma_counted(t, n - 1, 512);
        assert forall|c: VoxelCoord| t.occupied(c) == #[trigger] counted(t, n - 1, 512, c) by {
            lemma_local_range(c.x, c.y, c.z);
            if t.occupied(c) {
                assert(t.slot(brick_code(c) as int) < n);
            }
        }
        assert(occupied_set(t) =~= Set::new(|c: VoxelCoord| counted(t, n - 1, 512, c)));
    } else {
        assert(occupied_set(t) =~= Set::empty()) by {
            assert forall|c: VoxelCoord| !#[trigger] occupied_set(t).contains(c) by {
                if t.occupied(c) {
                    assert(0 <= t.slot(brick_code(c) as int) < n);
                }
            }
        }
    }
}

/// The footprint counts the cells that hold something: at each level as many as
/// there are aligned cells of that level's edge with an occupied voxel, and at
/// the voxel level the occupied voxels.
pub proof fn law_footprint_counts_cells(t: SparseTree, f: LevelFootprint, level: int)
    requires
        t.wf(),
        t.compact(),
        0 <= level <= t.resolution.levels() + 1,
        is_footprint(t, f, level),
    ensures
        level >= 1 ==> f.count == occupied_cells(t, level as nat).len() && f.cell_size == cell_edge(
            level as nat,
        ),
        level == 0 ==> f.count == occupied_set(t).len() && f.cell_size == 1,
{
    vstd::arithmetic::power2::lemma2_to64();
    if level >= 1 {
        law_counts_are_occupied_cells(t, level as nat);
        crate::resolution::lemma_side_is_pow2((level - 1) as nat);
        assert(Level(level as u32).log2_cell() == 3 + 2 * ((level - 1) as nat));
    } else {
        law_total_is_occupied_voxels(t);
    }
}

/// The occupied voxels counted are those there are.
pub proof fn law_voxels_counted(t: SparseTree, n: u64)
    requires
        t.wf(),
        call_ensures(SparseTree::occupied_voxels, (&t,), n),
        t.leaves@.len() <= MAX_CELLS,
    ensures
        n == occupied_set(t).len(),
{
    law_total_is_occupied_voxels(t);
}

} // verus!
