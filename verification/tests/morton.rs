//! The Morton codec.

use voxel_mip::morton::{decode, encode, encode_brick, encode_coord, MAX_MORTON_COORD};
use voxel_mip::VoxelCoord;

#[test]
fn known_values() {
    assert_eq!(encode(0, 0, 0), 0);
    assert_eq!(encode(1, 0, 0), 1);
    assert_eq!(encode(0, 1, 0), 2);
    assert_eq!(encode(0, 0, 1), 4);
    assert_eq!(encode(1, 1, 1), 7);
}

#[test]
fn brick_index_in_range() {
    for x in 0..8 {
        for y in 0..8 {
            for z in 0..8 {
                assert!(encode_brick(x, y, z) < 512);
            }
        }
    }
    let mut seen = [false; 512];
    for x in 0..8 {
        for y in 0..8 {
            for z in 0..8 {
                let i = encode_brick(x, y, z) as usize;
                assert!(!seen[i], "duplicate brick index {i}");
                seen[i] = true;
            }
        }
    }
    assert!(seen.iter().all(|&b| b));
}

#[test]
fn codes_decode_to_what_was_encoded() {
    let ends = [0, 1, 2, 7, 8, 1000, 0x15_5555, 0x0a_aaaa, MAX_MORTON_COORD - 1, MAX_MORTON_COORD];
    for x in ends {
        for y in ends {
            for z in ends {
                let c = VoxelCoord::new(x, y, z);
                assert_eq!(decode(encode_coord(c)), c);
                if x < MAX_MORTON_COORD {
                    assert!(encode(x + 1, y, z) > encode(x, y, z));
                }
            }
        }
    }
    assert_eq!(encode(MAX_MORTON_COORD, MAX_MORTON_COORD, MAX_MORTON_COORD), (1u64 << 63) - 1);
}
