//! The dense bit grid.

use voxel_mip::{BitGrid, OccupancyField, Resolution, VoxelCoord};

fn res(n: u32) -> Resolution {
    Resolution::new(n).unwrap()
}

#[test]
fn set_get_round_trip() {
    let mut g = BitGrid::empty(res(32));
    let c = VoxelCoord::new(3, 17, 31);
    assert!(!g.is_occupied(c));
    g.set(c);
    assert!(g.is_occupied(c));
    assert_eq!(g.count_occupied(), 1);
    g.clear(c);
    assert!(!g.is_occupied(c));
}

#[test]
fn out_of_bounds_reads_false_and_writes_noop() {
    let mut g = BitGrid::empty(res(8));
    let oob = VoxelCoord::new(8, 0, 0);
    g.set(oob);
    assert!(!g.is_occupied(oob));
    assert_eq!(g.count_occupied(), 0);
}

#[test]
fn distinct_voxels_do_not_alias() {
    let mut g = BitGrid::empty(res(8));
    g.set(VoxelCoord::new(7, 0, 0));
    assert!(!g.is_occupied(VoxelCoord::new(0, 1, 0)));
    assert!(!g.is_occupied(VoxelCoord::new(0, 0, 1)));
}

#[test]
fn raw_words_are_the_bits_in_linear_order() {
    let r = res(8);
    let mut words = vec![0u64; 8];
    words[1] = 1 << 5;
    let g = BitGrid::from_raw(r, words);
    assert!(g.is_occupied(VoxelCoord::new(5, 0, 1)));
    assert_eq!(g.count_occupied(), 1);
    let copy = g.clone();
    assert!(copy.is_occupied(VoxelCoord::new(5, 0, 1)));
    let empty = BitGrid::empty(r);
    assert_eq!(empty.count_occupied(), 0);
}
