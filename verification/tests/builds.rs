//! The ways to a tree agree, and what each level, slot and flag then holds.

use std::collections::BTreeSet;

use voxel_mip::bench::{random_voxel, sample_anchors, MAX_ANCHORS, MAX_TRIES};
use voxel_mip::brush_voxels;
use voxel_mip::fixtures::{Dust, Empty, OctantFractal, Solid};
use voxel_mip::mip::BrickGrid;
use voxel_mip::palette::STRIDE_W;
use voxel_mip::scene::{Scene, Upload};
use voxel_mip::{
    BitGrid, Cell, Edit, LeafBounds, NodeLayout, OccupancyField, Resolution, SchoolBBuffer,
    SparseTree, VoxelCoord,
};

fn res(n: u32) -> Resolution {
    Resolution::new(n).unwrap()
}

fn assert_same_structure(a: &SparseTree, b: &SparseTree) {
    assert_eq!(a.codes, b.codes);
    assert_eq!(a.leaves, b.leaves);
    assert_eq!(a.nodes, b.nodes);
}

/// Eighteen voxels of one leaf, each with an id of its own.
fn spilled_tree() -> SparseTree {
    let voxels: Vec<(VoxelCoord, u16)> =
        (0..18u32).map(|i| (VoxelCoord::new(i % 8, i / 8, 0), i as u16)).collect();
    SparseTree::from_voxels(res(32), &voxels)
}

#[test]
fn a_material_edit_of_a_spilled_leaf_bumps_the_generation() {
    let mut t = spilled_tree();
    assert_eq!(t.topology_generation(), 0);
    let stale = SchoolBBuffer::from_sparse(&t);
    let c = VoxelCoord::new(0, 0, 0);
    assert_eq!(t.set_material(c, 99), Edit::Material { leaf: 0, spilled: true });
    assert_eq!(t.topology_generation(), 1);
    assert_ne!(t.topology_generation(), stale.source_gen);

    // Recolouring to the same id is no edit; falling back under the cap bumps too.
    assert_eq!(t.set_material(c, 99), Edit::Unchanged);
    assert_eq!(t.topology_generation(), 1);
    assert_eq!(t.set_material(c, 1), Edit::Material { leaf: 0, spilled: true });
    assert_eq!(t.topology_generation(), 2);
    let d = VoxelCoord::new(2, 0, 0);
    assert_eq!(t.set_material(d, 1), Edit::Material { leaf: 0, spilled: false });
    assert_eq!(t.topology_generation(), 3);
    assert_eq!(t.set_material(d, 3), Edit::Material { leaf: 0, spilled: false });
    assert_eq!(t.topology_generation(), 3);
}

#[test]
fn levels_past_the_coarsest_are_empty() {
    let t = SparseTree::build(&Solid { resolution: res(32) });
    assert_eq!(t.level_nodes(2).len(), 1);
    for level in [0, 1, 3, 4, u32::MAX] {
        assert!(t.level_nodes(level).is_empty());
        assert_eq!(t.nodes_at_level(level), 0);
    }
}

#[test]
fn a_patched_leaf_keeps_its_transparency() {
    let c = VoxelCoord::new(1, 1, 1);
    let mut tree = SparseTree::from_voxels(res(32), &[(c, 0), (VoxelCoord::new(20, 0, 0), 0)]);
    let mut b = SchoolBBuffer::from_sparse(&tree);
    b.assemble_leaf_color(&tree, |v| [0, 0, 0, if v == c { 128 } else { 255 }]);
    let slot = tree.leaf_slot_of(c).unwrap();
    let marked = |b: &SchoolBBuffer| -> Vec<usize> {
        (0..b.leaves().len())
            .filter(|&i| b.leaf_bounds_words()[i] & LeafBounds::TRANSPARENCY_BIT != 0)
            .collect()
    };
    assert_eq!(marked(&b), [slot as usize]);

    assert_eq!(tree.set_voxel(VoxelCoord::new(2, 1, 1), true), Edit::Leaf(slot));
    b.patch_leaf(&tree, slot);
    assert!(b.has_transparency());
    assert_eq!(marked(&b), [slot as usize]);
    assert_eq!(
        LeafBounds::unpack(b.leaf_bounds_words()[slot as usize]),
        tree.leaves_slice()[slot as usize].occupied_bounds()
    );
    b.patch_leaf_mat(&tree, slot);
    assert_eq!((b.has_transparency(), marked(&b)), (true, vec![slot as usize]));

    let other = 1 - slot;
    let word = b.leaf_bounds_words()[other as usize];
    b.patch_leaf(&tree, other);
    assert_eq!(b.leaf_bounds_words()[other as usize], word);
}

#[test]
fn an_opaque_bake_clears_the_marks_of_an_earlier_one() {
    let c = VoxelCoord::new(1, 1, 1);
    let tree = SparseTree::from_voxels(res(8), &[(c, 0)]);
    let mut b = SchoolBBuffer::from_sparse(&tree);
    let plain = b.leaf_bounds_words()[0];
    b.assemble_leaf_color(&tree, |_| [1, 2, 3, 4]);
    assert!(b.has_transparency());
    assert_eq!(b.leaf_bounds_words()[0], plain | LeafBounds::TRANSPARENCY_BIT);
    b.assemble_leaf_color(&tree, |_| [1, 2, 3, 255]);
    assert!(!b.has_transparency());
    assert_eq!(b.leaf_bounds_words()[0], plain);
}

#[test]
fn a_topology_stroke_serializes_the_materials_too() {
    let voxels = [(VoxelCoord::new(1, 1, 1), 7u16), (VoxelCoord::new(20, 0, 0), 9)];
    let mut scene = Scene::new(SparseTree::from_voxels(res(32), &voxels));
    let before = scene.structure.leaf_mat_words().to_vec();

    // In place: words and bounds are patched, the material slots stand.
    let s = scene.apply_brush(&[VoxelCoord::new(2, 1, 1)], true);
    assert!(!s.topology && matches!(s.upload, Upload::Leaves(_)));
    assert_eq!(scene.structure.leaf_mat_words(), before);

    let s = scene.apply_brush(&brush_voxels(VoxelCoord::new(10, 10, 10), 1), true);
    assert!(s.topology && matches!(s.upload, Upload::Full));
    let fresh = SchoolBBuffer::from_sparse(&scene.tree);
    assert_eq!(scene.structure.leaf_mat_words(), fresh.leaf_mat_words());
    assert_eq!(scene.structure.leaf_mat_words().len(), STRIDE_W * scene.tree.leaf_count());
    assert!(!scene.structure.has_leaf_color() && !scene.structure.has_transparency());
}

/// The aligned cells of an edge that hold an occupied voxel.
fn cells<F: OccupancyField>(field: &F, n: u32, edge: u32) -> usize {
    let mut seen = BTreeSet::new();
    for z in 0..n {
        for y in 0..n {
            for x in 0..n {
                if field.is_occupied(VoxelCoord::new(x, y, z)) {
                    seen.insert((x / edge, y / edge, z / edge));
                }
            }
        }
    }
    seen.len()
}

#[test]
fn every_level_counts_its_occupied_cells() {
    let r = res(128);
    let field = Dust { resolution: r, density: 20_000 };
    let t = SparseTree::build(&field);
    assert!(t.leaf_count() > 10);
    assert_eq!(t.occupied_voxels(), cells(&field, 128, 1) as u64);
    assert_eq!(t.leaf_count(), cells(&field, 128, 8));
    assert_eq!(t.nodes_at_level(2), cells(&field, 128, 32));
    assert_eq!(t.nodes_at_level(3), cells(&field, 128, 128));
}

#[test]
fn the_brick_grid_answers_for_its_field() {
    let field = OctantFractal::cantor_dust(res(32));
    let grid = BrickGrid::from_field(&field);
    for b in [[0, 0, 0], [1, 2, 3], [3, 3, 3], [4, 0, 0], [0, u32::MAX, 0]] {
        let expected = b.iter().all(|&i| i < 4)
            && (0..512u32).any(|m| {
                let (x, y, z) = (m % 8, m / 8 % 8, m / 64);
                field.is_occupied(VoxelCoord::new(8 * b[0] + x, 8 * b[1] + y, 8 * b[2] + z))
            });
        assert_eq!(grid.is_brick_occupied(b), expected);
    }
}

#[test]
fn a_run_of_edits_equals_a_build_of_the_edited_grid() {
    let r = res(32);
    let field = OctantFractal::sierpinski_tetrahedron(r);
    let mut tree = SparseTree::build(&field);
    let mut grid = BitGrid::from_field(&field);
    let mut state = 7u64;
    let mut topology = 0;
    for i in 0..200 {
        // The first draws reach past the grid too.
        let c = random_voxel(&mut state, if i < 20 { 40 } else { 32 });
        let v = i % 3 != 0;
        let before = tree.topology_generation();
        let kept = tree.clone();
        let edit = tree.set_voxel(c, v);
        if v {
            grid.set(c);
        } else {
            grid.clear(c);
        }
        let bump = u64::from(edit == Edit::Topology);
        topology += bump;
        assert_eq!(tree.topology_generation(), before + bump);
        if v && edit != Edit::Unchanged {
            assert_eq!(tree.material_at(c), 0);
        }
        assert_eq!(kept.material_at(VoxelCoord::new(0, 0, 0)), 0);
    }
    assert!(topology > 0);
    assert_same_structure(&tree, &SparseTree::build(&grid));
}

#[test]
fn the_order_of_voxels_matters_only_per_coord() {
    let r = res(32);
    let (p, q) = (VoxelCoord::new(1, 2, 3), VoxelCoord::new(30, 2, 3));
    let a = SparseTree::from_voxels(r, &[(p, 1), (q, 5), (p, 2)]);
    let b = SparseTree::from_voxels(r, &[(q, 5), (p, 1), (p, 2)]);
    let c = SparseTree::from_voxels(r, &[(p, 2), (q, 5), (p, 1)]);
    assert_same_structure(&a, &b);
    assert_eq!(a.materials, b.materials);
    assert_eq!((a.material_at(p), c.material_at(p)), (2, 1));

    let mut edited = SparseTree::build(&Empty { resolution: r });
    for v in [p, q, p] {
        edited.set_voxel(v, true);
    }
    assert_same_structure(&a, &edited);
    assert_eq!(a.leaf_count(), 2);
}

#[test]
fn both_layouts_reach_the_same_leaf_slot() {
    let r = res(128);
    let tree = SparseTree::build(&Dust { resolution: r, density: 5_000 });
    let b = SchoolBBuffer::from_sparse(&tree);
    let walk = |l: &dyn Fn(Cell, u32, u32) -> Cell, root: Cell, c: VoxelCoord| {
        let (mut cell, mut level) = (root, r.internal_levels() + 1);
        while let Cell::Node(_) = cell {
            let s = 2 * (level - 2) + 3;
            let bit = voxel_mip::node::child_bit(c.x >> s, c.y >> s, c.z >> s);
            cell = l(cell, level, bit);
            level -= 1;
        }
        cell
    };
    let step_tree = |cell: Cell, level: u32, bit: u32| match cell {
        Cell::Node(n) => tree.child(n, level, bit),
        other => other,
    };
    let step_buffer = |cell: Cell, level: u32, bit: u32| match cell {
        Cell::Node(n) => b.child(n, level, bit),
        other => other,
    };
    let mut state = 3u64;
    let mut found = 0;
    for _ in 0..500 {
        let c = random_voxel(&mut state, 128);
        let expected = tree.leaf_slot_of(c).map_or(Cell::Empty, Cell::Leaf);
        found += usize::from(expected != Cell::Empty);
        assert_eq!(walk(&step_tree, tree.root(), c), expected);
        assert_eq!(walk(&step_buffer, b.root(), c), expected);
    }
    assert!(found > 0);
}

#[test]
fn anchors_follow_the_generator() {
    const STEP: u64 = 0x9E37_79B9_7F4A_7C15;
    let full = SparseTree::build(&Solid { resolution: res(8) });
    let mut state = 0u64;
    let anchors = sample_anchors(&full, 8, &mut state);
    assert_eq!(anchors.len(), MAX_ANCHORS);
    assert_eq!(anchors[..2], [VoxelCoord::new(7, 4, 7), VoxelCoord::new(4, 3, 2)]);
    assert_eq!(state, STEP.wrapping_mul(3 * MAX_ANCHORS as u64));

    let none = SparseTree::build(&Empty { resolution: res(8) });
    let mut state = 0u64;
    assert!(sample_anchors(&none, 8, &mut state).is_empty());
    assert_eq!(state, STEP.wrapping_mul(3 * u64::from(MAX_TRIES)));

    // Only occupied draws are kept, in the order drawn.
    let one = SparseTree::from_voxels(res(8), &[(VoxelCoord::new(4, 3, 2), 0)]);
    let mut state = 0u64;
    let hits = sample_anchors(&one, 8, &mut state);
    assert!(!hits.is_empty() && hits.iter().all(|&c| c == VoxelCoord::new(4, 3, 2)));
}
