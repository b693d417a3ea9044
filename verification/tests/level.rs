//! Levels.

use voxel_mip::Level;

#[test]
fn cell_size_pins_idea_md_section_7_1() {
    assert_eq!(Level::voxel().cell_size(), 1);
    assert_eq!(Level::leaf_brick().cell_size(), 8);
    assert_eq!(Level::internal(2).cell_size(), 32);
    assert_eq!(Level::internal(3).cell_size(), 128);
    assert_eq!(Level::internal(4).cell_size(), 512);
}

#[test]
fn parent_bits_pins_idea_md_section_7_2() {
    assert_eq!(Level::voxel().parent_bits(), 3);
    assert_eq!(Level::leaf_brick().parent_bits(), 5);
    assert_eq!(Level::internal(2).parent_bits(), 7);
    assert_eq!(Level::internal(3).parent_bits(), 9);
}

#[test]
fn parent_extent_is_parent_cell_size() {
    for l in 0u32..6 {
        let lvl = if l == 0 {
            Level::voxel()
        } else if l == 1 {
            Level::leaf_brick()
        } else {
            Level::internal(l)
        };
        assert_eq!(1u64 << lvl.parent_bits(), lvl.coarser().cell_size());
    }
}

#[test]
fn coarse_is_k_plus_one() {
    assert_eq!(Level::coarse(3).index(), 4);
    assert_eq!(Level::coarse(4).index(), 5);
}

#[test]
fn descend_then_ascend_is_identity() {
    let l = Level::internal(3);
    assert_eq!(l.finer().coarser(), l);
}
