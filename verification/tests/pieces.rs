//! Exact values of the small pieces the larger operations are built from.

use voxel_mip::assemble::{enumerate_slab, slab_bounds};
use voxel_mip::bytes::read_u64_le;
use voxel_mip::controls::{CamMode, Controls, Effect};
use voxel_mip::fixtures::{hash3, OctantFractal, SingleVoxel};
use voxel_mip::leaf::LeafBrick;
use voxel_mip::levels::{build_levels, build_parents, search};
use voxel_mip::palette::{derive_palette, leaf_spills, LeafMaterials, LEAF_VOXELS, STRIDE_W};
use voxel_mip::sparse::brick_of;
use voxel_mip::upload::{pack_materials, upload_color_chunks};
use voxel_mip::{morton, Level, Resolution, SchoolBBuffer, SparseTree, VoxelCoord};

fn res(n: u32) -> Resolution {
    Resolution::new(n).unwrap()
}

fn single(resolution: Resolution, voxel: VoxelCoord) -> SingleVoxel {
    SingleVoxel { resolution, voxel }
}

#[test]
fn coordinates_round_trip_through_arrays_and_know_their_grid() {
    let c = VoxelCoord::from_array([7, 0, 31]);
    assert_eq!(c, VoxelCoord::new(7, 0, 31));
    assert_eq!(c.to_array(), [7, 0, 31]);
    assert!(c.in_bounds(res(32)));
    assert!(!c.in_bounds(res(8)));
    assert!(!VoxelCoord::new(32, 0, 0).in_bounds(res(32)));
}

#[test]
fn align_steps_by_three_and_by_two() {
    assert!(Level::voxel().is_voxel());
    assert!(!Level::leaf_brick().is_voxel());
    let aligns: Vec<u32> = (0..5).map(|l| Level(l).align()).collect();
    assert_eq!(aligns, [0, 3, 5, 7, 9]);
}

#[test]
fn hash3_has_fixed_values() {
    assert_eq!(hash3(0, 0, 0), 0);
    assert_eq!(hash3(1, 2, 3), 0x8c79_00be);
    assert_eq!(hash3(u32::MAX, 7, 0), 0x97e2_c49f);
}

#[test]
fn eight_bytes_read_low_byte_first() {
    let bytes = [9, 1, 2, 3, 4, 5, 6, 7, 8];
    assert_eq!(read_u64_le(&bytes, 1), 0x0807_0605_0403_0201);
    assert_eq!(read_u64_le(&bytes, 0), 0x0706_0504_0302_0109);
}

#[test]
fn a_cleared_bit_leaves_the_others() {
    let mut brick = LeafBrick::empty();
    brick.set_local(1, 2, 3);
    brick.set_local(7, 7, 7);
    let m = morton::encode_brick(1, 2, 3);
    assert!(brick.get_morton(m));
    brick.clear_morton(m);
    assert!(!brick.get_morton(m));
    assert!(brick.get_morton(511));
    brick.clear_local(7, 7, 7);
    assert_eq!(brick, LeafBrick::empty());
}

#[test]
fn slabs_cover_the_layers_in_order() {
    let slabs: Vec<(u32, u32)> = (0..4).map(|t| slab_bounds(10, 4, t)).collect();
    assert_eq!(slabs, [(0, 3), (3, 6), (6, 9), (9, 10)]);
    // Rounding up can leave the last worker nothing: its slab starts past the end.
    assert_eq!(slab_bounds(5, 4, 2), (4, 5));
    assert_eq!(slab_bounds(5, 4, 3), (6, 5));
}

#[test]
fn a_slab_lists_only_its_own_bricks() {
    let field = single(res(32), VoxelCoord::new(9, 17, 25));
    assert!(enumerate_slab(&field, 4, 0, 3).is_empty());
    let mut brick = LeafBrick::empty();
    brick.set_local(1, 1, 1);
    assert_eq!(
        enumerate_slab(&field, 4, 3, 4),
        vec![(morton::encode(1, 2, 3), brick)]
    );
    assert!(enumerate_slab(&field, 4, 4, 2).is_empty());
}

#[test]
fn bricks_assemble_in_any_order() {
    let r = res(32);
    let field = OctantFractal::sierpinski_tetrahedron(r);
    let tree = SparseTree::build(&field);
    let mut found = enumerate_slab(&field, 4, 0, 4);
    found.reverse();
    let assembled = SparseTree::from_bricks(r, found);
    assert_eq!(assembled.leaves_slice(), tree.leaves_slice());
    for level in 2..=r.internal_levels() + 1 {
        assert_eq!(assembled.level_nodes(level), tree.level_nodes(level));
    }
}

#[test]
fn parents_group_codes_by_sixty_four() {
    let (nodes, codes) = build_parents(&[0, 5, 63, 64, 200]);
    assert_eq!(codes, [0, 1, 3]);
    assert_eq!(nodes.len(), 3);
    assert_eq!((nodes[0].mask_lo, nodes[0].mask_hi, nodes[0].child_base), (0x21, 1 << 31, 0));
    assert_eq!((nodes[1].mask_lo, nodes[1].mask_hi, nodes[1].child_base), (1, 0, 3));
    assert_eq!((nodes[2].mask_lo, nodes[2].mask_hi, nodes[2].child_base), (1 << 8, 0, 4));

    let levels = build_levels(2, &[0, 5, 63, 64, 200]);
    assert_eq!(levels.len(), 4);
    assert!(levels[0].is_empty() && levels[1].is_empty());
    assert_eq!(levels[2], nodes);
    assert_eq!(levels[3].len(), 1);
    assert_eq!((levels[3][0].mask_lo, levels[3][0].child_base), (0b1011, 0));
}

#[test]
fn a_search_says_where_a_missing_code_goes() {
    let codes = [2, 4, 6];
    assert_eq!(search(&codes, 4), Ok(1));
    assert_eq!(search(&codes, 1), Err(0));
    assert_eq!(search(&codes, 5), Err(2));
    assert_eq!(search(&codes, 7), Err(3));
    assert_eq!(search(&[], 7), Err(0));
}

#[test]
fn the_header_word_holds_width_and_length() {
    let one = LeafMaterials::new(vec![40], vec![0u8; LEAF_VOXELS]).unwrap();
    assert_eq!(one.header_word(), 1 << 4);
    let five = LeafMaterials::new(vec![1, 2, 3, 4, 5], vec![0u8; LEAF_VOXELS]).unwrap();
    assert_eq!(five.header_word(), 3 | (5 << 4));
    assert_eq!(five.pack()[0], five.header_word());
}

#[test]
fn a_palette_lists_occupied_materials_in_scan_order() {
    let mut mats = [0u16; LEAF_VOXELS];
    let mut occ = vec![false; LEAF_VOXELS];
    for (x, y, z, id) in [(3, 0, 0, 70), (0, 1, 0, 60), (1, 1, 0, 70), (2, 2, 2, 0)] {
        let m = morton::encode_brick(x, y, z) as usize;
        mats[m] = id;
        occ[m] = true;
    }
    // An empty voxel's material is not listed.
    mats[morton::encode_brick(7, 7, 7) as usize] = 99;
    let (palette, indices) = derive_palette(&mats, &occ).unwrap();
    assert_eq!(palette, [70, 60, 0]);
    let at = |x, y, z| indices[morton::encode_brick(x, y, z) as usize];
    assert_eq!((at(3, 0, 0), at(0, 1, 0), at(1, 1, 0), at(2, 2, 2)), (0, 1, 0, 2));
    assert_eq!(at(7, 7, 7), 0);
}

#[test]
fn a_seventeenth_material_spills_the_leaf() {
    let mut brick = LeafBrick::empty();
    let mut mats = [0u16; LEAF_VOXELS];
    for i in 0..17u32 {
        mats[i as usize] = 100 + i as u16;
        assert!(!leaf_spills(&brick, &mats));
        brick.set_morton(i);
    }
    assert!(leaf_spills(&brick, &mats));
    let occ: Vec<bool> = (0..LEAF_VOXELS as u32).map(|i| brick.get_morton(i)).collect();
    assert_eq!(derive_palette(&mats, &occ), None);
    brick.clear_morton(3);
    assert!(!leaf_spills(&brick, &mats));
}

#[test]
fn a_tree_hands_out_its_levels_leaves_and_materials() {
    let r = res(128);
    let c = VoxelCoord::new(9, 17, 100);
    assert_eq!(brick_of(c, r), morton::encode(1, 2, 12));
    let mut tree = SparseTree::build(&single(r, c));
    tree.set_material(c, 5);
    assert_eq!(tree.leaves_slice().len(), 1);
    assert!(tree.leaves_slice()[0].get_local(1, 1, 4));
    let counts: Vec<usize> = (0..5).map(|l| tree.nodes_at_level(l)).collect();
    assert_eq!(counts, [0, 0, 1, 1, 0]);
    assert_eq!(tree.level_nodes(2).len(), 1);
    assert_eq!(tree.level_nodes(3)[0].child_base, 0);
    let mats = tree.leaf_materials(0);
    assert_eq!(mats[morton::encode_brick(1, 1, 4) as usize], 5);
    assert_eq!(mats.iter().filter(|&&m| m != 0).count(), 1);
}

#[test]
fn an_empty_structure_still_has_a_material_slot() {
    let r = res(8);
    let empty = SchoolBBuffer::from_sparse(&SparseTree::from_bricks(r, vec![]));
    assert_eq!(pack_materials(&empty), vec![0u32; STRIDE_W]);

    let tree = SparseTree::build(&single(r, VoxelCoord::new(0, 0, 0)));
    let one = SchoolBBuffer::from_sparse(&tree);
    assert_eq!(pack_materials(&one), one.leaf_mat_words());
}

#[test]
fn color_chunks_are_the_words_in_memory() {
    let up = upload_color_chunks(&[1, 2, 3, 4, 5], &[0, 3], 2);
    let sizes: Vec<usize> = up.chunks.iter().map(Vec::len).collect();
    assert_eq!(sizes, [8, 8, 4]);
    assert_eq!(up.chunks[1][..4], 3u32.to_ne_bytes());
    assert_eq!(up.chunks[2], 5u32.to_ne_bytes());
    assert_eq!(up.base.len(), 8);
    assert_eq!(up.base[4..], 3u32.to_ne_bytes());
    assert_eq!(up.dummy, 0u32.to_ne_bytes());
}

#[test]
fn the_camera_mode_toggles_and_seeds_the_free_camera() {
    let mut c = Controls::default();
    assert_eq!(c.toggle_mode(), Effect::SeedFree);
    assert_eq!(c.mode, CamMode::Free);
    assert_eq!(c.toggle_mode(), Effect::Nothing);
    assert_eq!(c, Controls::default());
}
