//! The sparse tree and its edits.

use voxel_mip::fixtures::{Empty, OctantFractal, SingleVoxel};
use voxel_mip::{
    brush_voxels, BitGrid, Edit, OccupancyField, Resolution, SparseTree, VoxelCoord,
};

fn res(n: u32) -> Resolution {
    Resolution::new(n).unwrap()
}

fn splitmix64(state: &mut u64) -> u64 {
    *state = state.wrapping_add(0x9E37_79B9_7F4A_7C15);
    let mut z = *state;
    z = (z ^ (z >> 30)).wrapping_mul(0xBF58_476D_1CE4_E5B9);
    z = (z ^ (z >> 27)).wrapping_mul(0x94D0_49BB_1331_11EB);
    z ^ (z >> 31)
}

#[test]
fn brush_voxels_is_a_clamped_sphere() {
    let c = VoxelCoord::new(10, 10, 10);
    assert_eq!(brush_voxels(c, 0), vec![c]);

    let r = 3u32;
    let got = brush_voxels(c, r);
    let r2 = i64::from(r) * i64::from(r);
    for v in &got {
        let (dx, dy, dz) = (
            i64::from(v.x) - 10,
            i64::from(v.y) - 10,
            i64::from(v.z) - 10,
        );
        assert!(dx * dx + dy * dy + dz * dz <= r2, "{v:?} outside radius");
    }
    assert!(got.contains(&VoxelCoord::new(13, 10, 10)));
    assert!(!got.contains(&VoxelCoord::new(13, 13, 10)));

    let edge = brush_voxels(VoxelCoord::new(0, 0, 0), 2);
    assert!(edge.iter().all(|v| v.x <= 2 && v.y <= 2 && v.z <= 2));
    assert!(edge.contains(&VoxelCoord::new(0, 0, 0)));
}

#[test]
fn point_query_matches_field_exhaustively() {
    let field = OctantFractal::sierpinski_tetrahedron(res(128));
    let tree = SparseTree::build(&field);
    let n = field.resolution().voxels_per_axis();
    for z in 0..n {
        for y in 0..n {
            for x in 0..n {
                let c = VoxelCoord::new(x, y, z);
                assert_eq!(tree.is_occupied(c), field.is_occupied(c), "voxel {c:?}");
            }
        }
    }
}

#[test]
fn sparsity_drops_node_and_leaf_counts() {
    let field = OctantFractal::sierpinski_tetrahedron(res(512));
    let tree = SparseTree::build(&field);
    let dense_bricks = 64usize.pow(3);
    assert!(
        tree.leaf_count() < dense_bricks / 4,
        "expected sparse leaves, got {} of {dense_bricks}",
        tree.leaf_count()
    );
    assert_eq!(tree.coarse_level(), 4);
}

#[test]
fn handles_single_brick_resolution() {
    let field = SingleVoxel {
        resolution: res(8),
        voxel: VoxelCoord::new(2, 5, 1),
    };
    let tree = SparseTree::build(&field);
    assert_eq!(tree.node_count(), 0);
    assert_eq!(tree.leaf_count(), 1);
    assert!(tree.is_occupied(VoxelCoord::new(2, 5, 1)));
    assert!(!tree.is_occupied(VoxelCoord::new(2, 5, 2)));
}

#[test]
fn incremental_edits_match_fresh_build() {
    let r = res(32);
    let n = r.voxels_per_axis();
    let base = OctantFractal::sierpinski_tetrahedron(r);
    let mut grid = BitGrid::from_field(&base);
    let mut tree = SparseTree::build(&base);

    let mut state = 0xED17_0000_0000_0001u64;
    let rc = |s: &mut u64| u32::try_from(splitmix64(s) % u64::from(n)).unwrap();
    let (mut leaf_edits, mut topo_edits) = (0u32, 0u32);
    for _ in 0..4000 {
        let c = VoxelCoord::new(rc(&mut state), rc(&mut state), rc(&mut state));
        let occ = !grid.is_occupied(c);
        if occ {
            grid.set(c);
        } else {
            grid.clear(c);
        }
        match tree.set_voxel(c, occ) {
            Edit::Leaf(_) => leaf_edits += 1,
            Edit::Topology => topo_edits += 1,
            Edit::Unchanged => panic!("a toggle must change something at {c:?}"),
            Edit::Material { .. } => unreachable!("set_voxel never changes materials"),
        }
    }

    let fresh = SparseTree::build(&grid);
    assert_eq!(tree.codes, fresh.codes, "code arrays diverged");
    assert_eq!(tree.leaves, fresh.leaves, "leaf arrays diverged");
    assert_eq!(tree.nodes, fresh.nodes, "node levels diverged");
    for z in 0..n {
        for y in 0..n {
            for x in 0..n {
                let c = VoxelCoord::new(x, y, z);
                assert_eq!(tree.is_occupied(c), grid.is_occupied(c), "voxel {c:?}");
            }
        }
    }
    assert!(
        leaf_edits > 0 && topo_edits > 0,
        "want both edit kinds exercised: leaf={leaf_edits} topo={topo_edits}"
    );
}

#[test]
fn edit_classification_is_correct() {
    let r = res(32);
    let mut tree = SparseTree::build(&Empty { resolution: r });
    let v = VoxelCoord::new;

    assert_eq!(tree.set_voxel(v(0, 0, 0), true), Edit::Topology);
    assert!(matches!(tree.set_voxel(v(1, 0, 0), true), Edit::Leaf(_)));
    assert_eq!(tree.set_voxel(v(1, 0, 0), true), Edit::Unchanged);
    assert!(matches!(tree.set_voxel(v(1, 0, 0), false), Edit::Leaf(_)));
    assert_eq!(tree.set_voxel(v(0, 0, 0), false), Edit::Topology);
    assert_eq!(tree.set_voxel(v(0, 0, 0), false), Edit::Unchanged);
    assert_eq!(tree.set_voxel(v(32, 0, 0), true), Edit::Unchanged);
    assert_eq!(tree.leaf_count(), 0);
}

#[test]
fn edits_handle_single_brick_resolution() {
    let r = res(8);
    let mut tree = SparseTree::build(&Empty { resolution: r });
    let v = VoxelCoord::new;

    assert_eq!(tree.set_voxel(v(2, 3, 4), true), Edit::Topology);
    assert_eq!(tree.leaf_count(), 1);
    assert_eq!(tree.node_count(), 0);
    assert!(tree.is_occupied(v(2, 3, 4)));
    assert!(matches!(tree.set_voxel(v(5, 6, 7), true), Edit::Leaf(_)));
    assert!(matches!(tree.set_voxel(v(2, 3, 4), false), Edit::Leaf(_)));
    assert_eq!(tree.set_voxel(v(5, 6, 7), false), Edit::Topology);
    assert_eq!(tree.leaf_count(), 0);
    assert!(!tree.is_occupied(v(5, 6, 7)));
    let empty = SparseTree::build(&Empty { resolution: r });
    assert_eq!(tree.leaves, empty.leaves);
    assert_eq!(tree.codes, empty.codes);
}

#[test]
fn edits_from_empty_and_back_to_empty() {
    let r = res(32);
    let target = OctantFractal::sierpinski_tetrahedron(r);
    let n = r.voxels_per_axis();

    let mut tree = SparseTree::build(&Empty { resolution: r });
    for z in 0..n {
        for y in 0..n {
            for x in 0..n {
                let c = VoxelCoord::new(x, y, z);
                if target.is_occupied(c) {
                    tree.set_voxel(c, true);
                }
            }
        }
    }
    let fresh = SparseTree::build(&target);
    assert_eq!(tree.codes, fresh.codes);
    assert_eq!(tree.leaves, fresh.leaves);
    assert_eq!(tree.nodes, fresh.nodes);

    for z in 0..n {
        for y in 0..n {
            for x in 0..n {
                tree.set_voxel(VoxelCoord::new(x, y, z), false);
            }
        }
    }
    assert_eq!(tree.leaf_count(), 0);
    assert_eq!(tree.node_count(), 0);
}

#[test]
fn set_material_colours_occupied_voxels() {
    let r = res(32);
    let mut tree = SparseTree::build(&Empty { resolution: r });
    let v = VoxelCoord::new;
    tree.set_voxel(v(0, 0, 0), true);
    tree.set_voxel(v(1, 0, 0), true);
    assert_eq!(tree.material_at(v(0, 0, 0)), 0);
    assert_eq!(
        tree.set_material(v(0, 0, 0), 7),
        Edit::Material {
            leaf: 0,
            spilled: false
        }
    );
    tree.set_material(v(1, 0, 0), 9);
    assert_eq!(tree.material_at(v(0, 0, 0)), 7);
    assert_eq!(tree.material_at(v(1, 0, 0)), 9);
    assert_eq!(tree.set_material(v(0, 0, 0), 7), Edit::Unchanged);
}

#[test]
fn set_material_on_empty_or_oob_is_noop() {
    let r = res(32);
    let mut tree = SparseTree::build(&Empty { resolution: r });
    let v = VoxelCoord::new;
    tree.set_voxel(v(0, 0, 0), true);
    assert_eq!(tree.set_material(v(1, 0, 0), 5), Edit::Unchanged);
    assert_eq!(tree.material_at(v(1, 0, 0)), 0);
    assert_eq!(tree.set_material(v(16, 0, 0), 5), Edit::Unchanged);
    assert_eq!(tree.set_material(v(32, 0, 0), 5), Edit::Unchanged);
}

#[test]
fn in_place_set_resets_stale_material() {
    let r = res(32);
    let mut tree = SparseTree::build(&Empty { resolution: r });
    let v = VoxelCoord::new;
    tree.set_voxel(v(0, 0, 0), true);
    tree.set_voxel(v(1, 0, 0), true);
    tree.set_material(v(0, 0, 0), 9);
    assert_eq!(tree.material_at(v(0, 0, 0)), 9);
    assert!(matches!(tree.set_voxel(v(0, 0, 0), false), Edit::Leaf(_)));
    assert!(matches!(tree.set_voxel(v(0, 0, 0), true), Edit::Leaf(_)));
    assert_eq!(
        tree.material_at(v(0, 0, 0)),
        0,
        "stale material survived a re-set"
    );
}

#[test]
fn materials_stay_index_parallel_across_topology() {
    let r = res(32);
    let mut tree = SparseTree::build(&Empty { resolution: r });
    let v = VoxelCoord::new;
    tree.set_voxel(v(8, 0, 0), true);
    tree.set_material(v(8, 0, 0), 5);
    assert_eq!(tree.materials.len(), tree.leaves.len());
    assert_eq!(tree.set_voxel(v(0, 0, 0), true), Edit::Topology);
    assert_eq!(tree.materials.len(), tree.leaves.len());
    assert_eq!(tree.leaf_count(), 2);
    assert_eq!(tree.material_at(v(8, 0, 0)), 5);
    assert_eq!(tree.material_at(v(0, 0, 0)), 0);
}

#[test]
fn removed_then_readded_leaf_starts_fresh() {
    let r = res(32);
    let mut tree = SparseTree::build(&Empty { resolution: r });
    let v = VoxelCoord::new;
    tree.set_voxel(v(0, 0, 0), true);
    tree.set_material(v(0, 0, 0), 9);
    assert_eq!(tree.set_voxel(v(0, 0, 0), false), Edit::Topology);
    assert_eq!(tree.materials.len(), 0);
    assert_eq!(tree.set_voxel(v(0, 0, 0), true), Edit::Topology);
    assert_eq!(tree.material_at(v(0, 0, 0)), 0, "old material resurrected");
}

#[test]
fn leaf_over_cap_spills_and_bumps_generation() {
    let r = res(32);
    let mut tree = SparseTree::build(&Empty { resolution: r });
    let v = VoxelCoord::new;
    let coord = |i: u32| v(i % 8, i / 8, 0);
    for i in 0..17u32 {
        tree.set_voxel(coord(i), true);
    }
    for i in 0..15u32 {
        assert_eq!(
            tree.set_material(coord(i), u16::try_from(i + 1).unwrap()),
            Edit::Material {
                leaf: 0,
                spilled: false
            }
        );
    }
    let gen_before = tree.topology_generation();
    assert_eq!(
        tree.set_material(coord(15), 16),
        Edit::Material {
            leaf: 0,
            spilled: true
        }
    );
    assert_eq!(tree.topology_generation(), gen_before + 1);
}

#[test]
fn from_voxels_matches_incremental_build_and_carries_materials() {
    let r = res(32);
    let pts: Vec<(VoxelCoord, u16)> = vec![
        (VoxelCoord::new(0, 0, 0), 3),
        (VoxelCoord::new(1, 0, 0), 3),
        (VoxelCoord::new(7, 7, 7), 5),
        (VoxelCoord::new(8, 0, 0), 7),
        (VoxelCoord::new(9, 2, 3), 7),
    ];
    let tree = SparseTree::from_voxels(r, &pts);

    let mut inc = SparseTree::build(&Empty { resolution: r });
    for (c, _) in &pts {
        inc.set_voxel(*c, true);
    }
    assert_eq!(
        tree.leaves, inc.leaves,
        "occupancy diverged from incremental"
    );
    assert_eq!(tree.codes, inc.codes, "brick codes diverged");
    assert_eq!(tree.leaf_count(), 2);

    for (c, gid) in &pts {
        assert_eq!(tree.material_at(*c), *gid, "material at {c:?}");
    }
    assert_eq!(tree.material_at(VoxelCoord::new(2, 0, 0)), 0);
}

#[test]
fn from_voxels_duplicate_coord_keeps_last() {
    let r = res(32);
    let pts = [
        (VoxelCoord::new(4, 4, 4), 2u16),
        (VoxelCoord::new(4, 4, 4), 9u16),
    ];
    let tree = SparseTree::from_voxels(r, &pts);
    assert_eq!(tree.leaf_count(), 1);
    assert_eq!(tree.material_at(VoxelCoord::new(4, 4, 4)), 9);
}
