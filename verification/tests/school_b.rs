//! The single-buffer layout.

use voxel_mip::fixtures::OctantFractal;
use voxel_mip::morton;
use voxel_mip::palette::{read_slot, STRIDE_W};
use voxel_mip::{Edit, LeafBounds, LeafBrick, Resolution, SchoolBBuffer, SparseTree, VoxelCoord};

fn res(n: u32) -> Resolution {
    Resolution::new(n).unwrap()
}

#[test]
fn leaf_bounds_are_index_parallel_with_leaves() {
    let tree = SparseTree::build(&OctantFractal::sierpinski_tetrahedron(res(128)));
    let b = SchoolBBuffer::from_sparse(&tree);
    assert_eq!(b.leaf_bounds_words().len(), b.leaves().len());
    for (i, leaf) in b.leaves().iter().enumerate() {
        assert_eq!(
            LeafBounds::unpack(b.leaf_bounds_words()[i]),
            leaf.occupied_bounds(),
            "leaf_bounds[{i}] disagrees with the leaf brick",
        );
    }
}

#[test]
fn patch_leaf_matches_a_fresh_build_after_in_place_edit() {
    let r = res(32);
    let mut tree = SparseTree::build(&OctantFractal::sierpinski_tetrahedron(r));
    let mut b = SchoolBBuffer::from_sparse(&tree);

    let c = VoxelCoord::new(7, 7, 7);
    assert!(!tree.is_occupied(c));
    let idx = match tree.clone().set_voxel(c, true) {
        Edit::Leaf(i) => i,
        other => panic!("expected an in-place Leaf edit, got {other:?}"),
    };

    tree.set_voxel(c, true);
    b.patch_leaf(&tree, idx);

    let fresh = SchoolBBuffer::from_sparse(&tree);
    assert_eq!(
        b.leaves(),
        fresh.leaves(),
        "leaf words diverged after patch"
    );
    assert_eq!(
        b.leaf_bounds_words(),
        fresh.leaf_bounds_words(),
        "leaf bounds diverged after patch"
    );
}

#[test]
fn school_b_preserves_node_count() {
    let tree = SparseTree::build(&OctantFractal::sierpinski_tetrahedron(res(512)));
    let b = SchoolBBuffer::from_sparse(&tree);
    assert_eq!(b.node_count(), tree.node_count());
    assert_eq!(b.leaves().len(), tree.leaf_count());
}

fn read_material(b: &SchoolBBuffer, tree: &SparseTree, coord: VoxelCoord) -> u16 {
    let Some(idx) = tree.leaf_slot_of(coord) else {
        return 0;
    };
    let base = idx as usize * STRIDE_W;
    let m = morton::encode_brick(coord.x & 7, coord.y & 7, coord.z & 7);
    read_slot(&b.leaf_mat_words()[base..base + STRIDE_W], m)
}

#[test]
fn leaf_mat_is_index_parallel_and_defaults_to_magenta() {
    let tree = SparseTree::build(&OctantFractal::sierpinski_tetrahedron(res(128)));
    let b = SchoolBBuffer::from_sparse(&tree);
    assert_eq!(b.leaf_mat_words().len(), b.leaves().len() * STRIDE_W);
    for (i, slot) in b.leaf_mat_words().chunks_exact(STRIDE_W).enumerate() {
        assert_eq!(
            slot[0] & 0xF,
            0,
            "leaf {i} should be the bits==0 uniform slot"
        );
        assert_eq!(
            read_slot(slot, 0),
            0,
            "default leaf {i} must read global-0 (magenta)"
        );
    }
}

#[test]
fn derive_roundtrips_assigned_materials() {
    let r = res(32);
    let mut tree = SparseTree::build(&OctantFractal::sierpinski_tetrahedron(r));
    let colour = |c: VoxelCoord| u16::try_from(1 + (c.x + c.y + c.z) % 5).unwrap();
    tree.fill_materials(colour);
    let b = SchoolBBuffer::from_sparse(&tree);

    let n = r.voxels_per_axis();
    let mut checked = 0u32;
    for z in 0..n {
        for y in 0..n {
            for x in 0..n {
                let c = VoxelCoord::new(x, y, z);
                if tree.is_occupied(c) {
                    assert_eq!(read_material(&b, &tree, c), colour(c), "at {c:?}");
                    checked += 1;
                }
            }
        }
    }
    assert!(
        checked > 100,
        "expected many occupied voxels, got {checked}"
    );
}

#[test]
fn material_patch_matches_a_fresh_build() {
    let r = res(32);
    let mut tree = SparseTree::build(&OctantFractal::sierpinski_tetrahedron(r));
    tree.fill_materials(|_| 1);
    let mut b = SchoolBBuffer::from_sparse(&tree);

    let c = VoxelCoord::new(0, 0, 0);
    assert!(tree.is_occupied(c));
    let idx = match tree.set_material(c, 2) {
        Edit::Material {
            leaf,
            spilled: false,
        } => leaf,
        other => panic!("expected an in-place Material edit, got {other:?}"),
    };
    b.patch_leaf_mat(&tree, idx);

    let fresh = SchoolBBuffer::from_sparse(&tree);
    assert_eq!(
        b.leaf_mat_words(),
        fresh.leaf_mat_words(),
        "leaf_mat diverged from a fresh build after an in-place material patch"
    );
    assert_eq!(read_material(&b, &tree, c), 2);
}

#[test]
fn leaf_color_assembles_in_slot_morton_rank_order() {
    let r = res(32);
    let tree = SparseTree::build(&OctantFractal::sierpinski_tetrahedron(r));
    let mut b = SchoolBBuffer::from_sparse(&tree);
    assert!(!b.has_leaf_color(), "no colour before assembly");

    let color_of = |c: VoxelCoord| {
        [
            u8::try_from(c.x & 0xff).unwrap(),
            u8::try_from(c.y & 0xff).unwrap(),
            u8::try_from(c.z & 0xff).unwrap(),
            255,
        ]
    };
    b.assemble_leaf_color(&tree, color_of);
    assert!(b.has_leaf_color());

    let leaves = b.leaves().len();
    assert_eq!(b.leaf_color_base_words().len(), leaves, "one base per leaf");
    let total_occ: u32 = b.leaves().iter().map(LeafBrick::count_occupied).sum();
    assert_eq!(
        u32::try_from(b.leaf_color_words().len()).unwrap(),
        total_occ,
        "one colour per occupied voxel"
    );

    let mut acc = 0u32;
    let mut checked = 0u32;
    for idx in 0..leaves {
        assert_eq!(
            b.leaf_color_base_words()[idx],
            acc,
            "base[{idx}] prefix sum"
        );
        let leaf = b.leaves()[idx];
        let origin = tree.leaf_origin(idx);
        let base = b.leaf_color_base_words()[idx];
        let mut rank = 0u32;
        for m in 0..512u32 {
            let local = morton::decode(u64::from(m));
            if leaf.get_local(local.x, local.y, local.z) {
                let world =
                    VoxelCoord::new(origin.x + local.x, origin.y + local.y, origin.z + local.z);
                assert_eq!(
                    b.leaf_color_words()[(base + rank) as usize],
                    u32::from_le_bytes(color_of(world)),
                    "leaf {idx} morton {m} (rank {rank})"
                );
                rank += 1;
                checked += 1;
            }
        }
        acc += leaf.count_occupied();
    }
    assert!(
        checked > 100,
        "expected many occupied voxels, got {checked}"
    );
}

#[test]
fn leaf_color_reads_back_via_occupied_rank() {
    let r = res(32);
    let tree = SparseTree::build(&OctantFractal::sierpinski_tetrahedron(r));
    let mut b = SchoolBBuffer::from_sparse(&tree);
    let color_of = |c: VoxelCoord| {
        [
            u8::try_from(c.x & 0xff).unwrap(),
            u8::try_from(c.y & 0xff).unwrap(),
            u8::try_from(c.z & 0xff).unwrap(),
            255,
        ]
    };
    b.assemble_leaf_color(&tree, color_of);

    let total = u32::try_from(b.leaf_color_words().len()).unwrap();
    let mut checked = 0u32;
    for slot in 0..b.leaves().len() {
        let leaf = b.leaves()[slot];
        let origin = tree.leaf_origin(slot);
        let base = b.leaf_color_base_words()[slot];
        let span_end = b
            .leaf_color_base_words()
            .get(slot + 1)
            .copied()
            .unwrap_or(total);
        for m in 0..512u32 {
            let local = morton::decode(u64::from(m));
            if leaf.get_local(local.x, local.y, local.z) {
                let idx = base + leaf.occupied_rank(m);
                assert!(
                    idx < span_end,
                    "slot {slot} morton {m}: index {idx} bleeds past span end {span_end}"
                );
                let world =
                    VoxelCoord::new(origin.x + local.x, origin.y + local.y, origin.z + local.z);
                assert_eq!(
                    b.leaf_color_words()[idx as usize],
                    u32::from_le_bytes(color_of(world)),
                    "slot {slot} morton {m} read back the wrong colour"
                );
                checked += 1;
            }
        }
    }
    assert!(
        checked > 100,
        "expected many occupied voxels, got {checked}"
    );

    let lone = VoxelCoord::new(15, 15, 15);
    let single = SparseTree::from_voxels(r, &[(lone, 0u16)]);
    let mut sb = SchoolBBuffer::from_sparse(&single);
    sb.assemble_leaf_color(&single, color_of);
    assert_eq!(sb.leaf_color_words().len(), 1, "one occupied voxel");
    assert_eq!(
        sb.leaves()[0].occupied_rank(511),
        0,
        "the lone voxel ranks 0"
    );
    assert_eq!(
        sb.leaf_color_words()[0],
        u32::from_le_bytes(color_of(lone)),
        "single-voxel-at-511 colour at base+0"
    );
}

#[test]
fn assemble_marks_transparency_bit_for_sub_255_alpha() {
    let r = res(8);
    let voxels = [VoxelCoord::new(1, 1, 1), VoxelCoord::new(2, 2, 2)];
    let tree = SparseTree::from_voxels(r, &voxels.map(|c| (c, 0u16)));
    let bounds_before = {
        let b = SchoolBBuffer::from_sparse(&tree);
        b.leaf_bounds_words()[0]
    };

    let mut opaque = SchoolBBuffer::from_sparse(&tree);
    opaque.assemble_leaf_color(&tree, |_| [10, 20, 30, 255]);
    assert!(!opaque.has_transparency(), "all-255 → no transparency");
    assert_eq!(
        opaque.leaf_bounds_words()[0] & LeafBounds::TRANSPARENCY_BIT,
        0,
        "no transparency bit set"
    );
    assert_eq!(
        opaque.leaf_bounds_words()[0],
        bounds_before,
        "bounds word unchanged when opaque"
    );

    let mut blend = SchoolBBuffer::from_sparse(&tree);
    blend.assemble_leaf_color(&tree, |c| {
        let a = if c == VoxelCoord::new(1, 1, 1) {
            128
        } else {
            255
        };
        [10, 20, 30, a]
    });
    assert!(blend.has_transparency(), "sub-255 alpha → has_transparency");
    assert_eq!(
        blend.leaf_bounds_words()[0] & LeafBounds::TRANSPARENCY_BIT,
        LeafBounds::TRANSPARENCY_BIT,
        "transparency bit set on the leaf"
    );
    assert_eq!(
        LeafBounds::unpack(blend.leaf_bounds_words()[0]),
        LeafBounds::unpack(bounds_before),
        "transparency bit must not disturb the occupied bounds"
    );
}
