//! What goes to a device and what comes back: chunks, shaders, buffers,
//! dispatches.

use voxel_mip::fixtures::{Empty, OctantFractal};
use voxel_mip::kernel::{
    decode_hits, noise_workgroups, pair_words, plan_noise, plan_rays, read_hits, read_occupancy,
    read_timestamp, render_workgroups, NoisePlan, RayDispatch,
};
use voxel_mip::palette::STRIDE_W;
use voxel_mip::shader::{
    color_blend_shader_source, color_shader_source, push_decimal, shader_source,
};
use voxel_mip::truecolor::{
    chunk_slot, probe_truecolor, split_color_chunks, COLOR_PER_CHUNK, MAX_BLEND,
    MAX_TRUECOLOR_VOXELS, N_MAX_CHUNKS,
};
use voxel_mip::upload::{
    pack_leaves, pack_nodes, select_render_mode, upload_materials, upload_structure, DeviceLimits,
    ModeUpload, RenderMode, ShaderText, Slot,
};
use voxel_mip::{
    Edit, GpuError, GpuNode, LeafBounds, MaterialTable, OccupancyField, Resolution, SchoolBBuffer,
    SparseTree, VoxelCoord,
};

const TRAVERSAL: &str = "fn traverse_ray() {}";
const TRUECOLOR: &str = "fn read_leaf_color() {}";
const BLEND: &str = "fn traverse_and_composite() {}";

fn res(n: u32) -> Resolution {
    Resolution::new(n).unwrap()
}

fn words(bytes: &[u8]) -> Vec<u32> {
    bytes.chunks_exact(4).map(|c| u32::from_ne_bytes([c[0], c[1], c[2], c[3]])).collect()
}

fn bytes(words: &[u32]) -> Vec<u8> {
    words.iter().flat_map(|w| w.to_ne_bytes()).collect()
}

#[test]
fn split_color_chunks_is_a_bijective_retiling() {
    let words: Vec<u32> = (100..120u32).collect();
    let per = 7u32;
    let chunks = split_color_chunks(&words, per);
    assert_eq!(chunks.len(), 20usize.div_ceil(7), "3 chunks");
    let cat: Vec<u32> = chunks.iter().flat_map(|c| c.iter().copied()).collect();
    assert_eq!(cat, words, "concatenation must round-trip (no entry lost/dup)");
    for c in &chunks[..chunks.len() - 1] {
        assert_eq!(c.len(), per as usize, "non-last chunks are full");
    }
    assert_eq!(chunks.last().unwrap().len(), 20 % 7, "last chunk is the remainder");
    for g in 0..words.len() {
        assert_eq!(
            chunks[g / per as usize][g % per as usize],
            words[g],
            "bijection broke at g={g}"
        );
    }
}

#[test]
fn no_colours_make_no_chunks() {
    assert!(split_color_chunks(&[], 7).is_empty());
    assert_eq!(split_color_chunks(&[1, 2, 3], 3), vec![&[1u32, 2, 3][..]]);
}

#[test]
fn color_shader_source_injects_per_chunk() {
    let src = color_shader_source(COLOR_PER_CHUNK, TRAVERSAL, TRUECOLOR);
    assert!(src.starts_with("const PER_CHUNK: u32 = "), "const must lead");
    assert!(
        src.contains(&format!("const PER_CHUNK: u32 = {COLOR_PER_CHUNK}u;")),
        "injected PER_CHUNK drifted from the Rust const"
    );
    assert!(src.contains("fn read_leaf_color"), "the truecolor entry is present");
    assert!(src.contains("fn traverse_ray"), "the shared traversal core is present");
}

#[test]
fn color_blend_shader_source_injects_per_chunk_and_max_blend() {
    let src = color_blend_shader_source(COLOR_PER_CHUNK, MAX_BLEND, TRAVERSAL, BLEND);
    assert!(
        src.contains(&format!("const PER_CHUNK: u32 = {COLOR_PER_CHUNK}u;")),
        "injected PER_CHUNK drifted from the Rust const"
    );
    assert!(
        src.contains(&format!("const MAX_BLEND: u32 = {MAX_BLEND}u;")),
        "injected MAX_BLEND drifted from the Rust const"
    );
    assert!(
        src.contains("fn traverse_and_composite"),
        "the compositing traversal is present"
    );
    assert!(src.contains("fn traverse_ray"), "the shared traversal core is present");
}

#[test]
fn shader_sources_are_exact() {
    assert_eq!(shader_source("a", "b"), "a\nb");
    assert_eq!(color_shader_source(7, "a", "b"), "const PER_CHUNK: u32 = 7u;\na\nb");
    assert_eq!(
        color_blend_shader_source(10, 0, "a", "b"),
        "const PER_CHUNK: u32 = 10u;\nconst MAX_BLEND: u32 = 0u;\na\nb"
    );
    for n in [0, 9, 10, 99, 100, 1_234_567_890, u32::MAX] {
        let mut s = String::new();
        push_decimal(&mut s, n);
        assert_eq!(s, n.to_string());
    }
}

#[test]
fn probe_truecolor_accepts_fit_and_rejects_each_overflow() {
    let per = COLOR_PER_CHUNK;
    let cap = u64::from(per) * 4;
    assert_eq!(probe_truecolor(512, 1000, 4000, per, 8, cap, cap).unwrap(), 1);
    let big = (N_MAX_CHUNKS as usize + 1) * per as usize;
    assert!(matches!(
        probe_truecolor(2048, big, 4000, per, 8, cap, cap),
        Err(GpuError::Unsupported { .. })
    ));
    assert!(matches!(
        probe_truecolor(512, 1000, 4000, per, 4, cap, cap),
        Err(GpuError::Unsupported { .. })
    ));
    assert!(matches!(
        probe_truecolor(512, 1000, 4000, per, 8, cap - 1, cap),
        Err(GpuError::BufferTooLarge { .. })
    ));
    assert!(matches!(
        probe_truecolor(512, 1000, cap + 1, per, 8, cap, cap),
        Err(GpuError::BufferTooLarge { .. })
    ));
}

#[test]
fn max_truecolor_voxels_is_the_probe_accept_reject_boundary() {
    let per = COLOR_PER_CHUNK;
    let cap = u64::from(per) * 4;
    assert_eq!(MAX_TRUECOLOR_VOXELS, (N_MAX_CHUNKS as usize) * (per as usize));
    assert_eq!(
        probe_truecolor(2048, MAX_TRUECOLOR_VOXELS, 4000, per, 8, cap, cap).unwrap(),
        N_MAX_CHUNKS
    );
    assert!(matches!(
        probe_truecolor(2048, MAX_TRUECOLOR_VOXELS + 1, 4000, per, 8, cap, cap),
        Err(GpuError::Unsupported { .. })
    ));
}

#[test]
fn probe_errors_carry_their_numbers() {
    assert_eq!(
        probe_truecolor(512, 10, 0, 4, 6, 100, 100),
        Err(GpuError::Unsupported {
            n: 512,
            reason: "truecolor needs 7 storage buffers but the adapter caps lower",
        })
    );
    assert_eq!(
        probe_truecolor(512, 13, 0, 4, 7, 100, 100),
        Err(GpuError::Unsupported {
            n: 512,
            reason: "scene exceeds the compiled truecolor colour-chunk count",
        })
    );
    assert_eq!(
        probe_truecolor(512, 12, 0, 4, 7, 20, 15),
        Err(GpuError::BufferTooLarge { needed: 16, limit: 15 })
    );
    assert_eq!(
        probe_truecolor(512, 12, 21, 4, 7, 20, 30),
        Err(GpuError::BufferTooLarge { needed: 21, limit: 20 })
    );
    assert_eq!(probe_truecolor(512, 0, 0, 4, 7, 16, 16), Ok(0));
}

#[test]
fn unused_chunk_slots_take_the_filler() {
    assert_eq!(chunk_slot(2, 0), Some(0));
    assert_eq!(chunk_slot(2, 1), Some(1));
    assert_eq!(chunk_slot(2, 2), None);
}

#[test]
fn structure_buffers_hold_the_structure() {
    let tree = SparseTree::build(&OctantFractal::sierpinski_tetrahedron(res(32)));
    let b = SchoolBBuffer::from_sparse(&tree);
    let up = upload_structure(&b, u64::MAX).unwrap();
    let nodes = words(&up.nodes);
    assert_eq!(nodes.len(), 3 * b.node_count());
    for (i, n) in b.nodes().iter().enumerate() {
        assert_eq!(nodes[3 * i..3 * i + 3], [n.mask_lo, n.mask_hi, n.child_base]);
    }
    let leaves = words(&up.leaves);
    for (i, l) in b.leaves().iter().enumerate() {
        assert_eq!(leaves[16 * i..16 * i + 16], l.words32());
    }
    assert_eq!(words(&up.leaf_bounds), b.leaf_bounds_words());
}

#[test]
fn empty_structures_pad_their_buffers() {
    let tree = SparseTree::build(&Empty { resolution: res(32) });
    let b = SchoolBBuffer::from_sparse(&tree);
    let up = upload_structure(&b, 64).unwrap();
    assert_eq!(words(&up.nodes), vec![0; 3]);
    assert_eq!(words(&up.leaves), vec![0; 16]);
    assert_eq!(words(&up.leaf_bounds), vec![LeafBounds::full().pack()]);
    let table = MaterialTable::missing_only();
    let mats = upload_materials(&b, &table, u64::MAX).unwrap();
    assert_eq!(words(&mats.leaf_mat), vec![0; STRIDE_W]);
    assert_eq!(words(&mats.table), table.words());
    assert_eq!(pack_nodes(&[GpuNode::new(1, 2)]), vec![1, 0, 2]);
    assert_eq!(pack_leaves(&[]), vec![0; 16]);
}

#[test]
fn the_first_buffer_over_the_limit_is_named() {
    let tree = SparseTree::build(&OctantFractal::sierpinski_tetrahedron(res(32)));
    let b = SchoolBBuffer::from_sparse(&tree);
    let (n, l) = (12 * b.node_count() as u64, 64 * b.leaves().len() as u64);
    assert_eq!(
        upload_structure(&b, n - 1).unwrap_err(),
        GpuError::BufferTooLarge { needed: n, limit: n - 1 }
    );
    assert_eq!(
        upload_structure(&b, l - 1).unwrap_err(),
        GpuError::BufferTooLarge { needed: l, limit: l - 1 }
    );
    assert!(upload_structure(&b, l).is_ok());
    let table = MaterialTable::missing_only();
    let m = 4 * STRIDE_W as u64 * b.leaves().len() as u64;
    assert_eq!(
        upload_materials(&b, &table, m - 1).unwrap_err(),
        GpuError::BufferTooLarge { needed: m, limit: m - 1 }
    );
}

fn shaders() -> ShaderText {
    ShaderText {
        traversal: TRAVERSAL.to_string(),
        render: "fn render_main() {}".to_string(),
        truecolor: TRUECOLOR.to_string(),
        blend: BLEND.to_string(),
    }
}

#[test]
fn the_render_mode_follows_the_baked_colours() {
    let r = res(8);
    let tree = SparseTree::from_voxels(r, &[(VoxelCoord::new(1, 1, 1), 0u16)]);
    let table = MaterialTable::missing_only();
    let limits =
        DeviceLimits { max_storage_buffers: 8, max_binding: 1 << 30, max_buffer: 1 << 30 };
    let mut b = SchoolBBuffer::from_sparse(&tree);

    let plan = select_render_mode(&b, &table, 4, limits, &shaders()).unwrap();
    assert_eq!(plan.mode, RenderMode::Palette);
    assert_eq!(plan.layout.len(), 7);
    assert_eq!(plan.source, format!("{TRAVERSAL}\nfn render_main() {{}}"));
    assert!(matches!(plan.buffers, ModeUpload::Palette(_)));

    b.assemble_leaf_color(&tree, |_| [1, 2, 3, 255]);
    let plan = select_render_mode(&b, &table, 4, limits, &shaders()).unwrap();
    assert_eq!(plan.mode, RenderMode::Truecolor);
    assert_eq!(plan.layout[3..], [
        Slot::Uniform(3),
        Slot::Output(4),
        Slot::Storage(5),
        Slot::Storage(6),
        Slot::Storage(7),
        Slot::Storage(8),
    ]);
    assert_eq!(plan.source, color_shader_source(4, TRAVERSAL, TRUECOLOR));
    match plan.buffers {
        ModeUpload::Truecolor(up) => {
            assert_eq!(up.chunks.len(), 1);
            assert_eq!(words(&up.chunks[0]), vec![u32::from_le_bytes([1, 2, 3, 255])]);
            assert_eq!(words(&up.base), vec![0]);
            assert_eq!(words(&up.dummy), vec![0]);
        }
        other => panic!("expected the truecolor buffers, got {other:?}"),
    }

    b.assemble_leaf_color(&tree, |_| [1, 2, 3, 128]);
    let plan = select_render_mode(&b, &table, 4, limits, &shaders()).unwrap();
    assert_eq!(plan.source, color_blend_shader_source(4, MAX_BLEND, TRAVERSAL, BLEND));

    let small = DeviceLimits { max_storage_buffers: 4, ..limits };
    assert!(matches!(
        select_render_mode(&b, &table, 4, small, &shaders()),
        Err(GpuError::Unsupported { n: 8, .. })
    ));
}

#[test]
fn an_edited_leaf_is_patched_in_place() {
    let r = res(32);
    let mut tree = SparseTree::build(&OctantFractal::sierpinski_tetrahedron(r));
    let mut b = SchoolBBuffer::from_sparse(&tree);
    let idx = match tree.set_voxel(VoxelCoord::new(15, 7, 7), true) {
        Edit::Leaf(i) => i,
        Edit::Topology => {
            b = SchoolBBuffer::from_sparse(&tree);
            tree.leaf_slot_of(VoxelCoord::new(15, 7, 7)).unwrap()
        }
        other => panic!("unexpected {other:?}"),
    };
    b.patch_leaf(&tree, idx);
    let patch = RenderMode::Palette.update_leaf(&b, idx).unwrap();
    assert_eq!(patch.words.offset, 64 * u64::from(idx));
    assert_eq!(words(&patch.words.bytes), b.leaf_at(idx).words32());
    assert_eq!(patch.bounds.offset, 4 * u64::from(idx));
    assert_eq!(words(&patch.bounds.bytes), vec![b.leaf_bounds_words()[idx as usize]]);

    let mat = RenderMode::Palette.update_leaf_mat(&b, idx).unwrap();
    let base = idx as usize * STRIDE_W;
    assert_eq!(mat.offset, 4 * base as u64);
    assert_eq!(words(&mat.bytes), b.leaf_mat_words()[base..base + STRIDE_W]);

    let again = RenderMode::Palette.reupload(&b, u64::MAX).unwrap();
    assert_eq!(words(&again.leaf_mat), b.leaf_mat_words());
    assert_eq!(words(&again.structure.leaf_bounds), b.leaf_bounds_words());
}

#[test]
fn truecolor_renderers_take_no_edits() {
    let tree = SparseTree::from_voxels(res(8), &[(VoxelCoord::new(1, 1, 1), 0u16)]);
    let b = SchoolBBuffer::from_sparse(&tree);
    let want = GpuError::Unsupported {
        n: 8,
        reason: "truecolor renderer is build-once; re-bake via GpuRenderer::new after an edit",
    };
    assert_eq!(RenderMode::Truecolor.update_leaf(&b, 0).unwrap_err(), want);
    assert_eq!(RenderMode::Truecolor.update_leaf_mat(&b, 0).unwrap_err(), want);
    // Whatever the leaf: none is looked up.
    assert_eq!(RenderMode::Truecolor.update_leaf(&b, u32::MAX).unwrap_err(), want);
    assert_eq!(RenderMode::Truecolor.update_leaf_mat(&b, u32::MAX).unwrap_err(), want);
    assert_eq!(RenderMode::Truecolor.reupload(&b, u64::MAX).unwrap_err(), want);
}

#[test]
fn ray_batches_are_sized() {
    assert_eq!(plan_rays(0), None);
    assert_eq!(
        plan_rays(65),
        Some(RayDispatch { ray_count: 65, hits_bytes: 1040, workgroups: 2 })
    );
    assert_eq!(
        plan_rays(64),
        Some(RayDispatch { ray_count: 64, hits_bytes: 1024, workgroups: 1 })
    );
}

#[test]
fn hits_are_read_back() {
    let raw = [3, 4, 5, 1, 9, 9, 9, 0, 0, 0, 0, 2];
    let want = vec![Some(VoxelCoord::new(3, 4, 5)), None, None];
    assert_eq!(decode_hits(&raw), want);
    assert_eq!(read_hits(&bytes(&raw)), want);
}

#[test]
fn timestamps_are_little_endian_and_saturate() {
    let mut raw = [0u8; 16];
    raw[0..8].copy_from_slice(&1000u64.to_le_bytes());
    raw[8..16].copy_from_slice(&0x0102_0304_0506_0708u64.to_le_bytes());
    assert_eq!(read_timestamp(&raw), 0x0102_0304_0506_0708 - 1000);
    raw[8..16].copy_from_slice(&999u64.to_le_bytes());
    assert_eq!(read_timestamp(&raw), 0);
}

#[test]
fn noise_buffers_are_sized() {
    assert_eq!(
        plan_noise(res(2048)),
        Ok(NoisePlan { total_words: 268_435_456, word_bytes: 1_073_741_824 })
    );
    assert_eq!(
        plan_noise(res(8192)),
        Err(GpuError::Unsupported {
            n: 8192,
            reason: "noise-gen word count exceeds u32 (resolution past 2048³)",
        })
    );
    assert_eq!(noise_workgroups(268_435_456, 65535), (65535, 17));
    assert_eq!(noise_workgroups(16, 65535), (1, 1));
    assert_eq!(noise_workgroups(512, 65535), (2, 1));
}

#[test]
fn noise_words_drop_into_a_grid() {
    assert_eq!(pair_words(&[1, 2, 3, 4]), vec![0x2_0000_0001, 0x4_0000_0003]);
    let mut raw = [0u32; 16];
    raw[0] = 1 << 3;
    raw[3] = 1 << 31;
    let grid = read_occupancy(res(8), &bytes(&raw));
    assert_eq!(grid.count_occupied(), 2);
    assert!(grid.is_occupied(VoxelCoord::new(3, 0, 0)));
    assert!(grid.is_occupied(VoxelCoord::new(7, 7, 1)));
}

#[test]
fn images_are_tiled_by_eight() {
    assert_eq!(render_workgroups(800, 600), (100, 75));
    assert_eq!(render_workgroups(801, 1), (101, 1));
}
