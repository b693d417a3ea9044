//! What edits undo, and what the serialized buffers give back.

use voxel_mip::fixtures::OctantFractal;
use voxel_mip::morton::encode_brick;
use voxel_mip::palette::{read_slot, STRIDE_W};
use voxel_mip::truecolor::split_color_chunks;
use voxel_mip::{Edit, NodeLayout, Resolution, SchoolBBuffer, SparseTree, VoxelCoord};

fn res(n: u32) -> Resolution {
    Resolution::new(n).unwrap()
}

fn assert_same_structure(a: &SparseTree, b: &SparseTree) {
    assert_eq!(a.codes, b.codes);
    assert_eq!(a.leaves, b.leaves);
    assert_eq!(a.nodes, b.nodes);
}

#[test]
fn an_edit_is_undone_by_its_opposite() {
    let built = SparseTree::build(&OctantFractal::sierpinski_tetrahedron(res(32)));
    for c in [
        VoxelCoord::new(0, 0, 0),
        VoxelCoord::new(1, 0, 0),
        VoxelCoord::new(31, 31, 31),
        VoxelCoord::new(8, 0, 0),
    ] {
        let mut t = built.clone();
        let was = t.is_occupied(c);
        assert_ne!(t.set_voxel(c, !was), Edit::Unchanged);
        assert_ne!(t.set_voxel(c, was), Edit::Unchanged);
        assert_same_structure(&t, &built);
    }
}

#[test]
fn edits_of_different_voxels_commute() {
    let built = SparseTree::build(&OctantFractal::cantor_dust(res(32)));
    let (p, q) = (VoxelCoord::new(9, 1, 30), VoxelCoord::new(0, 0, 0));
    let (mut a, mut b) = (built.clone(), built);
    a.set_voxel(p, true);
    a.set_voxel(q, false);
    b.set_voxel(q, false);
    b.set_voxel(p, true);
    assert_same_structure(&a, &b);
}

#[test]
fn the_contents_determine_the_buffers() {
    let r = res(32);
    let voxels = [
        (VoxelCoord::new(1, 2, 3), 7u16),
        (VoxelCoord::new(30, 30, 30), 9),
        (VoxelCoord::new(2, 2, 3), 8),
    ];
    let direct = SparseTree::from_voxels(r, &voxels);
    let mut edited = SparseTree::from_voxels(r, &[]);
    edited.set_voxel(VoxelCoord::new(20, 0, 0), true);
    for (c, id) in voxels.iter().rev() {
        edited.set_voxel(*c, true);
        edited.set_material(*c, *id);
    }
    edited.set_voxel(VoxelCoord::new(20, 0, 0), false);
    let (a, b) = (SchoolBBuffer::from_sparse(&direct), SchoolBBuffer::from_sparse(&edited));
    assert_eq!(a.nodes(), b.nodes());
    assert_eq!(a.leaves(), b.leaves());
    assert_eq!(a.leaf_bounds_words(), b.leaf_bounds_words());
    assert_eq!(a.leaf_mat_words(), b.leaf_mat_words());
}

#[test]
fn materials_read_back_from_the_buffer() {
    let r = res(32);
    let mut voxels = Vec::new();
    for i in 0..12u32 {
        voxels.push((VoxelCoord::new(i % 8, i / 8, 5), 100 + i as u16));
    }
    let tree = SparseTree::from_voxels(r, &voxels);
    let buffer = SchoolBBuffer::from_sparse(&tree);
    for (c, id) in &voxels {
        let leaf = tree.leaf_slot_of(*c).unwrap() as usize;
        let slot = &buffer.leaf_mat_words()[leaf * STRIDE_W..(leaf + 1) * STRIDE_W];
        assert_eq!(read_slot(slot, encode_brick(c.x % 8, c.y % 8, c.z % 8)), *id);
    }
}

#[test]
fn a_spilled_leaf_reads_back_the_sentinel() {
    let mut voxels = Vec::new();
    for i in 0..17u32 {
        voxels.push((VoxelCoord::new(i % 8, i / 8, 0), 1 + i as u16));
    }
    let tree = SparseTree::from_voxels(res(8), &voxels);
    let buffer = SchoolBBuffer::from_sparse(&tree);
    for (c, _) in &voxels {
        assert_eq!(read_slot(buffer.leaf_mat_words(), encode_brick(c.x, c.y, c.z)), 0);
    }
}

#[test]
fn baked_colours_read_back_through_the_chunks() {
    let tree = SparseTree::build(&OctantFractal::sierpinski_tetrahedron(res(32)));
    let mut buffer = SchoolBBuffer::from_sparse(&tree);
    buffer.assemble_leaf_color(&tree, |c: VoxelCoord| [c.x as u8, c.y as u8, c.z as u8, 255]);
    let per = 7u32;
    let chunks = split_color_chunks(buffer.leaf_color_words(), per);
    let mut seen = 0;
    for z in 0..32 {
        for y in 0..32 {
            for x in 0..32 {
                let c = VoxelCoord::new(x, y, z);
                if !tree.is_occupied(c) {
                    continue;
                }
                let leaf = tree.leaf_slot_of(c).unwrap();
                let rank = buffer.leaf(leaf).occupied_rank(encode_brick(x % 8, y % 8, z % 8));
                let g = buffer.leaf_color_base_words()[leaf as usize] + rank;
                let word = chunks[(g / per) as usize][(g % per) as usize];
                assert_eq!(word, x + 256 * y + 65536 * z + 0xff00_0000);
                seen += 1;
            }
        }
    }
    assert_eq!(seen, buffer.leaf_color_words().len());
}
