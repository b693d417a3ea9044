//! Internal nodes.

use std::mem::{align_of, size_of};
use voxel_mip::morton::encode;
use voxel_mip::node::child_bit;
use voxel_mip::GpuNode;

#[test]
fn layout_is_three_u32() {
    assert_eq!(size_of::<GpuNode>(), 12);
    assert_eq!(align_of::<GpuNode>(), 4);
}

#[test]
fn mask_round_trips_through_lo_hi() {
    let m = 0xDEAD_BEEF_F00D_1234u64;
    let n = GpuNode::new(m, 7);
    assert_eq!(n.mask(), m);
    assert_eq!(n.mask_lo, 0xF00D_1234);
    assert_eq!(n.mask_hi, 0xDEAD_BEEF);
}

#[test]
fn child_slot_is_rank_across_the_32_bit_boundary() {
    let mask = (1u64 << 1) | (1u64 << 33) | (1u64 << 40);
    let n = GpuNode::new(mask, 100);
    assert!(n.has_child(1) && n.has_child(33) && n.has_child(40));
    assert!(!n.has_child(0) && !n.has_child(32));
    assert_eq!(n.child_slot(1), 100);
    assert_eq!(n.child_slot(33), 101);
    assert_eq!(n.child_slot(40), 102);
}

#[test]
fn child_slot_at_bit_63() {
    let mask = (1u64 << 63) | 1u64;
    let n = GpuNode::new(mask, 0);
    assert_eq!(n.child_slot(0), 0);
    assert_eq!(n.child_slot(63), 1);
}

#[test]
fn child_bit_matches_morton() {
    for cz in 0..4 {
        for cy in 0..4 {
            for cx in 0..4 {
                assert_eq!(
                    u64::from(child_bit(cx, cy, cz)),
                    encode(cx, cy, cz)
                );
                assert!(child_bit(cx, cy, cz) < 64);
            }
        }
    }
}
