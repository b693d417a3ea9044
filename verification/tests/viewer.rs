//! Scenes, brushes, controls, the HUD, and the benchmark counters.

use voxel_mip::bench::{batch_edit, neighbour, EditTally, StampTally};
use voxel_mip::brush::{stamp, Stamp};
use voxel_mip::catalog::{build_tree, Fixture};
use voxel_mip::compare::{diff_hits, diff_words, Backend, Choice, HitDiff, Probe};
use voxel_mip::controls::{done, CamMode, Controls, Effect, Key, MAX_BRUSH_RADIUS};
use voxel_mip::fixtures::{Checkerboard, Empty, OctantFractal};
use voxel_mip::hud::{
    brush_line, build_atlas, glyph_cell, glyph_rows, push_bounded, quad_count, rasterize,
    scene_line, visible_glyphs, ATLAS_H, ATLAS_W, MAX_QUADS,
};
use voxel_mip::measure::{
    per_level_footprint, rng_coord, spills_l2, splitmix64, total_bytes, RayTally, LEAF_BYTES,
    NODE_BYTES, REPRESENTATIVE_L2,
};
use voxel_mip::scene::{Scene, Upload};
use voxel_mip::{
    brush_voxels, Edit, OccupancyField, Resolution, SchoolBBuffer, SparseTree, TraversalStats,
    VoxelCoord,
};

fn res(n: u32) -> Resolution {
    Resolution::new(n).unwrap()
}

#[test]
fn footprint_levels_are_coarse_first_and_consistent() {
    let tree = SparseTree::build(&OctantFractal::sierpinski_tetrahedron(res(128)));
    let levels = per_level_footprint(&tree);
    assert_eq!(levels.first().unwrap().level, tree.coarse_level());
    assert_eq!(levels.last().unwrap().level, 0);
    for w in levels.windows(2) {
        assert!(
            w[0].count <= w[1].count,
            "occupancy should grow toward fine levels"
        );
    }
}

#[test]
fn footprints_add_up_to_nodes_and_leaves() {
    let tree = SparseTree::build(&Checkerboard { resolution: res(32) });
    let levels = per_level_footprint(&tree);
    assert_eq!(levels.len(), 3);
    assert_eq!((levels[0].cell_size, levels[0].count, levels[0].bytes), (32, 1, 12));
    assert_eq!((levels[1].cell_size, levels[1].count, levels[1].bytes), (8, 64, 4096));
    assert_eq!((levels[2].cell_size, levels[2].count, levels[2].bytes), (1, 16384, 0));
    assert_eq!(
        total_bytes(&levels),
        NODE_BYTES * tree.node_count() as u64 + LEAF_BYTES * tree.leaf_count() as u64
    );
    assert!(!spills_l2(REPRESENTATIVE_L2));
    assert!(spills_l2(REPRESENTATIVE_L2 + 1));
}

#[test]
fn rays_are_tallied() {
    let mut t = RayTally::default();
    t.record(true, TraversalStats { descents: 3, cell_steps: 10 });
    t.record(false, TraversalStats { descents: 5, cell_steps: 4 });
    assert_eq!(
        t,
        RayTally { hits: 1, descents: 8, max_descents: 5, cell_steps: 14, max_cell_steps: 10 }
    );
}

#[test]
fn the_generator_is_splitmix64() {
    let mut state = 0u64;
    assert_eq!(splitmix64(&mut state), 0xE220_A839_7B1D_CDAF);
    assert_eq!(state, 0x9E37_79B9_7F4A_7C15);
    assert_eq!(splitmix64(&mut state), 0x6E78_9E6A_A1B9_65F4);
    let mut again = 0u64;
    assert_eq!(rng_coord(&mut again, 100), (0xE220_A839_7B1D_CDAFu64 % 100) as u32);
}

#[test]
fn fixtures_have_names_labels_and_trees() {
    assert_eq!(Fixture::WireLattice.name(), "wire-lattice");
    assert_eq!(Fixture::WireLattice.label(), "WIRE-LATTICE");
    assert_eq!(Fixture::Caves.name(), "caves");
    assert_eq!(Fixture::Sierpinski.label(), "SIERPINSKI");
    let r = res(32);
    for f in [Fixture::Sierpinski, Fixture::Cantor, Fixture::Checkerboard, Fixture::Solid] {
        assert!(build_tree(f, r).unwrap().leaf_count() > 0);
    }
    assert_eq!(build_tree(Fixture::Solid, r).unwrap().occupied_voxels(), 32 * 32 * 32);
    assert!(build_tree(Fixture::Perlin, r).is_none());
    assert!(build_tree(Fixture::Caves, r).is_none());
    let frac = OctantFractal::cantor_dust(r);
    let tree = build_tree(Fixture::Cantor, r).unwrap();
    for i in 0..32 {
        let c = VoxelCoord::new(i, i, i);
        assert_eq!(tree.is_occupied(c), frac.is_occupied(c));
    }
}

#[test]
fn stamps_report_what_changed() {
    let mut tree = SparseTree::build(&Empty { resolution: res(32) });
    let coords = brush_voxels(VoxelCoord::new(4, 4, 4), 1);
    assert_eq!(coords.len(), 7);
    let s = stamp(&mut tree, &coords, true);
    assert!(s.topology && s.touched.is_empty());
    assert_eq!(s.changed, 7);
    let s = stamp(&mut tree, &coords, true);
    assert!(!s.topology);
    assert_eq!(s.changed, 0);
    let s = stamp(&mut tree, &brush_voxels(VoxelCoord::new(4, 4, 5), 1), true);
    assert!(!s.topology);
    assert_eq!(s.touched, vec![0]);
    assert_eq!(s.changed, 5);
    assert_eq!(tree.occupied_voxels(), 12);
    let s = stamp(&mut tree, &brush_voxels(VoxelCoord::new(4, 4, 4), 8), false);
    assert!(s.topology);
    assert_eq!(s.changed, 12);
    assert_eq!(tree.leaf_count(), 0);
}

#[test]
fn a_repeated_coordinate_changes_once() {
    let mut tree = SparseTree::build(&Empty { resolution: res(8) });
    let c = VoxelCoord::new(1, 2, 3);
    let s = stamp(&mut tree, &[c, c, VoxelCoord::new(8, 0, 0)], true);
    assert_eq!(s.changed, 1);
    assert_eq!(tree.occupied_voxels(), 1);
}

#[test]
fn a_stamp_counts_the_generation_up_by_the_bricks_it_moves() {
    let r = res(32);
    let mut tree = SparseTree::build(&Empty { resolution: r });
    let ball = brush_voxels(VoxelCoord::new(16, 16, 16), 3);
    assert!(stamp(&mut tree, &ball, true).topology);
    assert_eq!((tree.leaf_count(), tree.topology_generation()), (8, 8));
    assert!(!stamp(&mut tree, &[VoxelCoord::new(20, 20, 20)], true).topology);
    assert_eq!(tree.topology_generation(), 8);
    assert!(stamp(&mut tree, &ball, false).topology);
    assert_eq!((tree.leaf_count(), tree.topology_generation()), (1, 15));

    let mut scene = Scene::new(tree);
    scene.apply_brush(&ball, true);
    assert_eq!(scene.tree.topology_generation(), 22);
    assert_eq!(scene.structure.source_gen, 22);

    tree = scene.tree;
    tree.topo_gen = u64::MAX;
    assert!(stamp(&mut tree, &ball, false).topology);
    assert_eq!(tree.topology_generation(), 6);
}

#[test]
fn an_in_place_batch_sets_then_clears_its_anchors_neighbours() {
    let (p, q) = (VoxelCoord::new(4, 0, 0), VoxelCoord::new(9, 1, 2));
    let anchors = [p, q];
    let edits: Vec<(VoxelCoord, bool)> = (0..5).map(|i| batch_edit(&anchors, i)).collect();
    let (a, b) = (VoxelCoord::new(5, 0, 0), VoxelCoord::new(8, 1, 2));
    assert_eq!(edits, [(a, true), (b, true), (a, false), (b, false), (a, true)]);
}

#[test]
fn touched_leaves_ascend_without_repeats() {
    let mut tree = SparseTree::build(&Checkerboard { resolution: res(32) });
    let s = stamp(&mut tree, &brush_voxels(VoxelCoord::new(16, 16, 16), 6), true);
    assert!(!s.topology);
    assert_eq!(s.touched.len(), 8);
    assert!(s.touched.windows(2).all(|w| w[0] < w[1]));
}

#[test]
fn a_scene_stays_in_step_with_its_tree() {
    let mut scene = Scene::new(SparseTree::build(&Checkerboard { resolution: res(32) }));
    let strokes = [
        (VoxelCoord::new(16, 16, 16), 6, true),
        (VoxelCoord::new(3, 3, 3), 2, false),
        (VoxelCoord::new(12, 12, 12), 12, false),
        (VoxelCoord::new(30, 30, 30), 4, true),
    ];
    let (mut full, mut leaves) = (0, 0);
    for (center, radius, add) in strokes {
        let stroke = scene.apply_brush(&brush_voxels(center, radius), add);
        match stroke.upload {
            Upload::Full => full += 1,
            Upload::Leaves(v) => leaves += v.len(),
            Upload::Nothing => panic!("every stroke changes something"),
        }
        let fresh = SchoolBBuffer::from_sparse(&scene.tree);
        assert_eq!(scene.structure.leaves(), fresh.leaves());
        assert_eq!(scene.structure.leaf_bounds_words(), fresh.leaf_bounds_words());
        assert_eq!(scene.structure.nodes(), fresh.nodes());
    }
    assert!(full > 0 && leaves > 0);
}

#[test]
fn a_failed_upload_is_owed_in_full() {
    let mut scene = Scene::new(SparseTree::build(&Checkerboard { resolution: res(32) }));
    scene.uploaded(false);
    assert!(scene.needs_full_upload);
    let coords = brush_voxels(VoxelCoord::new(4, 4, 4), 1);
    let stroke = scene.apply_brush(&coords, true);
    assert!(!stroke.topology);
    assert!(matches!(stroke.upload, Upload::Full));
    scene.uploaded(true);
    let stroke = scene.apply_brush(&coords, true);
    assert_eq!(stroke.changed, 0);
    assert!(matches!(stroke.upload, Upload::Nothing));
}

#[test]
fn keys_drive_the_controls() {
    let mut c = Controls::default();
    assert_eq!(c.mode.label(), "ORBIT");
    assert_eq!(c.on_key(Key::Boost, true), Effect::Nothing);
    assert_eq!(c.mode, CamMode::Orbit);
    assert_eq!(c.on_key(Key::Forward, true), Effect::SeedFree);
    assert_eq!(c.mode.label(), "FREE");
    assert!(c.held.forward && c.held.boost);
    assert_eq!(c.on_key(Key::Forward, false), Effect::Nothing);
    assert!(!c.held.forward);
    assert_eq!(c.on_key(Key::Mode, true), Effect::Nothing);
    assert_eq!(c.mode, CamMode::Orbit);
    assert_eq!(c.on_key(Key::Mode, false), Effect::Nothing);
    assert_eq!(c.on_key(Key::Mode, true), Effect::SeedFree);
    assert_eq!(c.on_key(Key::Hud, true), Effect::Nothing);
    assert!(!c.show_hud);
    assert_eq!(c.on_key(Key::Brush, true), Effect::Nothing);
    assert!(!c.brush_add);
    assert_eq!(c.on_key(Key::Other, true), Effect::Nothing);
    assert_eq!(c.on_key(Key::Quit, true), Effect::Exit);
}

#[test]
fn the_brush_radius_is_clamped() {
    let mut c = Controls::default();
    assert_eq!(c.brush_radius, 3);
    for _ in 0..20 {
        c.on_key(Key::Larger, true);
    }
    assert_eq!(c.brush_radius, MAX_BRUSH_RADIUS);
    for _ in 0..20 {
        c.on_key(Key::Smaller, true);
    }
    assert_eq!(c.brush_radius, 0);
}

#[test]
fn toggling_twice_undoes() {
    let start = Controls::default();
    for key in [Key::Mode, Key::Hud, Key::Brush] {
        let mut c = start;
        c.on_key(key, true);
        assert!(c != start);
        c.on_key(key, true);
        assert_eq!(c, start);
    }
}

#[test]
fn buttons_look_and_stamp() {
    let mut c = Controls::default();
    assert_eq!(c.on_right_button(true), Effect::Stamp);
    assert_eq!(c.on_right_button(false), Effect::Nothing);
    assert_eq!(c.on_left_button(true), Effect::SeedFree);
    assert!(c.mouse_look);
    assert_eq!(c.on_left_button(false), Effect::Nothing);
    assert!(!c.mouse_look);
    assert_eq!(c.mode, CamMode::Free);
}

#[test]
fn a_frame_budget_of_zero_never_ends() {
    assert!(!done(0, 1000));
    assert!(!done(3, 2));
    assert!(done(3, 3));
}

/// Ink mass `(left, right, top, bottom)` of a glyph.
fn ink_mass(c: u8) -> (u32, u32, u32, u32) {
    let rows = glyph_rows(c);
    let (mut left, mut right, mut top, mut bottom) = (0, 0, 0, 0);
    for (y, r) in rows.iter().enumerate() {
        for x in 0..8u32 {
            if (r >> x) & 1 == 1 {
                if x < 4 {
                    left += 1;
                } else {
                    right += 1;
                }
                if y < 4 {
                    top += 1;
                } else {
                    bottom += 1;
                }
            }
        }
    }
    (left, right, top, bottom)
}

#[test]
fn font_orientation_is_upright() {
    let (fl, fr, ft, fb) = ink_mass(b'F');
    assert!(fl > fr, "F left-heavy: {fl} vs {fr}");
    assert!(ft > fb, "F top-heavy: {ft} vs {fb}");
    let (ll, lr, lt, lb) = ink_mass(b'L');
    assert!(ll > lr, "L left-heavy: {ll} vs {lr}");
    assert!(lb > lt, "L bottom-heavy: {lb} vs {lt}");
}

#[test]
fn space_glyph_is_blank() {
    assert_eq!(glyph_rows(b' '), [0; 8]);
}

#[test]
fn non_printable_bytes_are_blank() {
    let atlas = build_atlas();
    for c in (0..=32u8).chain(127..=255) {
        assert_eq!(glyph_rows(c), [0; 8]);
        if c < 128 {
            let (cx, cy) = glyph_cell(c);
            for y in 0..8 {
                for x in 0..8 {
                    assert_eq!(atlas[((cy * 8 + y) * ATLAS_W + cx * 8 + x) as usize], 0);
                }
            }
        }
    }
    assert!((33..127u8).all(|c| glyph_rows(c) != [0; 8]));
}

#[test]
fn bytes_outside_ascii_are_blank() {
    assert_eq!(glyph_rows(128), [0; 8]);
    assert_eq!(glyph_rows(255), [0; 8]);
}

#[test]
fn atlas_has_expected_size_and_ink() {
    let a = build_atlas();
    assert_eq!(a.len(), (ATLAS_W * ATLAS_H) as usize);
    assert!(a.contains(&255), "atlas should contain glyphs");
}

#[test]
fn atlas_cells_hold_their_glyphs() {
    let a = build_atlas();
    for c in [b'A', b'~', b'0', 0u8, 127u8] {
        let (cx, cy) = glyph_cell(c);
        let rows = glyph_rows(c);
        for y in 0..8 {
            for x in 0..8 {
                let px = a[((cy * 8 + y) * ATLAS_W + cx * 8 + x) as usize];
                let want = if (rows[y as usize] >> x) & 1 == 1 { 255 } else { 0 };
                assert_eq!(px, want);
            }
        }
    }
    let mut glyphs = vec![[0u8; 8]; 128];
    glyphs[17][2] = 1 << 5;
    let a = rasterize(&glyphs);
    assert_eq!(a.iter().filter(|&&p| p == 255).count(), 1);
    assert_eq!(a[(8 + 2) * 128 + 8 + 5], 255);
}

#[test]
fn only_visible_glyphs_are_drawn() {
    assert_eq!(visible_glyphs(b"A B"), vec![(0, b'A'), (2, b'B')]);
    assert_eq!(visible_glyphs(&[31, 32, 33, 126, 127, 128]), vec![(2, 33), (3, 126)]);
    assert_eq!(quad_count(5), 5);
    assert_eq!(quad_count(MAX_QUADS + 5), MAX_QUADS);
}

#[test]
fn hud_lines_are_exact() {
    assert_eq!(scene_line("DUST", 512), "DUST 512^3");
    assert_eq!(brush_line(true, 3), "BRUSH ADD  R3");
    assert_eq!(brush_line(false, 12), "BRUSH REM  R12");
}

#[test]
fn histories_are_bounded() {
    let mut h: Vec<u32> = Vec::new();
    for i in 0..5 {
        push_bounded(&mut h, i, 3);
    }
    assert_eq!(h, vec![2, 3, 4]);
}

#[test]
fn backends_fall_back_only_when_left_open() {
    assert!(!Backend::Cpu.needs_probe());
    assert!(Backend::Gpu.needs_probe() && Backend::Auto.needs_probe());
    assert_eq!(Backend::Cpu.choose_by(Probe::Ready), Choice::Cpu);
    assert_eq!(Backend::Gpu.choose_by(Probe::Ready), Choice::Gpu);
    assert_eq!(Backend::Gpu.choose_by(Probe::NoAdapter), Choice::Fail);
    assert_eq!(Backend::Auto.choose_by(Probe::NoAdapter), Choice::Cpu);
    assert_eq!(Backend::Auto.choose_by(Probe::Failed), Choice::Fail);
    assert_eq!(Backend::Auto.choose_by(Probe::Ready), Choice::Gpu);
}

#[test]
fn hits_are_compared_ray_by_ray() {
    let v = |x| Some(VoxelCoord::new(x, 0, 0));
    let got = [v(1), None, v(3), None];
    let want = [v(1), v(2), v(4), None];
    assert_eq!(diff_hits(&got, &want), HitDiff { hits: 2, mismatches: 2 });
    assert_eq!(diff_hits(&got, &got), HitDiff { hits: 2, mismatches: 0 });
}

#[test]
fn lists_of_different_lengths_are_compared_as_far_as_both_go() {
    let c = Some(VoxelCoord::new(1, 2, 3));
    assert_eq!(diff_hits(&[c, None, c], &[c, c]), HitDiff { hits: 1, mismatches: 1 });
    assert_eq!(diff_hits(&[None], &[c, c]), HitDiff { hits: 0, mismatches: 1 });
    assert_eq!(diff_hits(&[], &[c]), HitDiff { hits: 0, mismatches: 0 });
    assert_eq!(diff_words(&[3, u64::MAX], &[1]), (1, 0));
}

#[test]
fn bitsets_are_compared_both_ways() {
    assert_eq!(diff_words(&[0b1011, 0], &[0b0010, 1]), (2, 1));
    assert_eq!(diff_words(&[u64::MAX], &[0]), (64, 0));
    assert_eq!(diff_words(&[5], &[7]), (0, 1));
}

#[test]
fn edits_and_stamps_are_tallied() {
    let mut t = EditTally::default();
    for e in [Edit::Leaf(3), Edit::Topology, Edit::Unchanged, Edit::Leaf(1)] {
        t.record(e);
    }
    assert_eq!(t, EditTally { leaf: 2, topology: 1 });
    let mut s = StampTally::default();
    s.record(&Stamp { changed: 5, topology: false, touched: vec![1, 2] });
    s.record(&Stamp { changed: 7, topology: true, touched: vec![] });
    assert_eq!(
        s,
        StampTally { voxels_changed: 12, leaves_touched: 2, inplace_stamps: 1, topo_stamps: 1 }
    );
}

#[test]
fn editing_a_neighbour_stays_in_place() {
    let mut tree = SparseTree::build(&OctantFractal::sierpinski_tetrahedron(res(32)));
    let a = VoxelCoord::new(0, 0, 0);
    assert_eq!(neighbour(a), VoxelCoord::new(1, 0, 0));
    assert_eq!(neighbour(neighbour(a)), a);
    assert!(matches!(tree.set_voxel(neighbour(a), true), Edit::Leaf(_)));
    assert!(matches!(tree.set_voxel(neighbour(a), false), Edit::Leaf(_)));
}

#[test]
fn text_emits_one_quad_per_visible_glyph() {
    let glyphs = visible_glyphs(b"A B"); // space is skipped
    assert_eq!(glyphs.len(), 2);
    assert_eq!(glyphs, vec![(0, b'A'), (2, b'B')]);
}
