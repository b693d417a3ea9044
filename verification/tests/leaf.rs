//! Leaf bricks and their bounds.

use voxel_mip::{LeafBounds, LeafBrick};

#[test]
fn set_get_local_round_trip() {
    let mut leaf = LeafBrick::empty();
    assert!(leaf.is_empty());
    leaf.set_local(3, 5, 7);
    assert!(leaf.get_local(3, 5, 7));
    assert!(!leaf.get_local(3, 5, 6));
    assert!(!leaf.is_empty());
    assert_eq!(leaf.count_occupied(), 1);
}

#[test]
fn occupied_bounds_tighten_to_set_voxels() {
    let mut leaf = LeafBrick::empty();
    leaf.set_local(2, 1, 5);
    leaf.set_local(6, 4, 3);
    let b = leaf.occupied_bounds();
    assert_eq!(b.min, [2, 1, 3]);
    assert_eq!(b.max, [6, 4, 5]);
    assert_eq!(LeafBounds::unpack(b.pack()), b);
}

#[test]
fn single_voxel_bounds_are_a_point() {
    let mut leaf = LeafBrick::empty();
    leaf.set_local(7, 0, 4);
    let b = leaf.occupied_bounds();
    assert_eq!(b.min, [7, 0, 4]);
    assert_eq!(b.max, [7, 0, 4]);
}

#[test]
fn empty_bounds_are_the_full_brick() {
    assert_eq!(LeafBrick::empty().occupied_bounds(), LeafBounds::full());
}

#[test]
fn leaf_wgsl_bit_layout_matches_pack() {
    for b in [
        LeafBounds {
            min: [0, 1, 2],
            max: [3, 4, 5],
        },
        LeafBounds {
            min: [7, 0, 7],
            max: [7, 6, 7],
        },
        LeafBounds {
            min: [2, 2, 2],
            max: [2, 2, 2],
        },
        LeafBounds::full(),
    ] {
        let p = b.pack();
        let mn = [p & 7, (p >> 3) & 7, (p >> 6) & 7];
        let mx = [(p >> 9) & 7, (p >> 12) & 7, (p >> 15) & 7];
        assert_eq!(mn, b.min, "WGSL min unpack drifted");
        assert_eq!(mx, b.max, "WGSL max unpack drifted");
        assert_eq!(LeafBounds::unpack(p), b);

        let pt = p | LeafBounds::TRANSPARENCY_BIT;
        assert_eq!(
            LeafBounds::unpack(pt),
            b,
            "transparency bit disturbed bounds"
        );
        let min_flagged = [pt & 7, (pt >> 3) & 7, (pt >> 6) & 7];
        let max_flagged = [(pt >> 9) & 7, (pt >> 12) & 7, (pt >> 15) & 7];
        assert_eq!(
            (min_flagged, max_flagged),
            (mn, mx),
            "transparency bit leaked into bounds"
        );
        assert_eq!(
            (pt >> 18) & 1,
            1,
            "transparency bit must read back at bit 18"
        );
        assert_eq!((p >> 18) & 1, 0, "bit 18 clear without the flag");
    }
}

#[test]
fn pack_masks_out_of_range_field_to_three_bits() {
    let p = LeafBounds {
        min: [0, 0, 0],
        max: [7, 7, 8],
    }
    .pack();
    assert_eq!(
        p & LeafBounds::TRANSPARENCY_BIT,
        0,
        "an out-of-range field must not set the phantom transparency bit"
    );
    assert_eq!(p >> 18, 0, "nothing lands at or above bit 18");
    assert_eq!(LeafBounds::unpack(p).max[2], 0, "8 masked to 0");
}

#[test]
fn all_512_voxels_are_independent() {
    let mut leaf = LeafBrick::empty();
    for z in 0..8 {
        for y in 0..8 {
            for x in 0..8 {
                leaf.set_local(x, y, z);
            }
        }
    }
    assert_eq!(leaf.count_occupied(), 512);
    for z in 0..8 {
        for y in 0..8 {
            for x in 0..8 {
                assert!(leaf.get_local(x, y, z));
            }
        }
    }
}

fn brute_force_rank(words: &[u32; 16], m: u32) -> u32 {
    let mut r = 0u32;
    for i in 0..m {
        r += (words[(i >> 5) as usize] >> (i & 31)) & 1;
    }
    r
}

fn wgsl_rank(words: &[u32; 16], m: u32) -> u32 {
    let mut rank = 0u32;
    let full = m >> 5;
    let mut w = 0u32;
    while w < full {
        rank += words[w as usize].count_ones();
        w += 1;
    }
    let rem = m & 31;
    if rem > 0 {
        rank += (words[full as usize] & ((1u32 << rem) - 1)).count_ones();
    }
    rank
}

fn splitmix64(state: &mut u64) -> u64 {
    *state = state.wrapping_add(0x9E37_79B9_7F4A_7C15);
    let mut z = *state;
    z = (z ^ (z >> 30)).wrapping_mul(0xBF58_476D_1CE4_E5B9);
    z = (z ^ (z >> 27)).wrapping_mul(0x94D0_49BB_1331_11EB);
    z ^ (z >> 31)
}

#[allow(clippy::cast_possible_truncation)]
fn next_u32(state: &mut u64) -> u32 {
    splitmix64(state) as u32
}

fn leaf_from_mortons(set: &[u32]) -> LeafBrick {
    let mut leaf = LeafBrick::empty();
    for &m in set {
        leaf.set_morton(m);
    }
    leaf
}

fn rank_fixtures() -> Vec<(&'static str, LeafBrick)> {
    let full = leaf_from_mortons(&(0..512).collect::<Vec<_>>());
    vec![
        ("empty", LeafBrick::empty()),
        ("full", full),
        ("single@0", leaf_from_mortons(&[0])),
        ("single@511", leaf_from_mortons(&[511])),
        (
            "boundary-straddle",
            leaf_from_mortons(&[31, 32, 33, 63, 64]),
        ),
        ("high-half", leaf_from_mortons(&[480, 481, 496, 511])),
        ("first@32", leaf_from_mortons(&[32])),
    ]
}

#[test]
fn occupied_rank_matches_brute_and_wgsl_over_all_positions() {
    let mut leaves: Vec<(String, LeafBrick)> = rank_fixtures()
        .into_iter()
        .map(|(n, l)| (n.to_string(), l))
        .collect();
    let mut state = 0x1234_5678_9ABC_DEF0u64;
    for r in 0..256u32 {
        let mut words = [0u32; 16];
        for w in &mut words {
            *w = next_u32(&mut state) & next_u32(&mut state);
        }
        leaves.push((format!("random#{r}"), LeafBrick::from_words32(words)));
    }

    for (name, leaf) in &leaves {
        let words = leaf.words32();
        for m in 0..512u32 {
            let bf = brute_force_rank(&words, m);
            assert_eq!(
                leaf.occupied_rank(m),
                bf,
                "{name}: occupied_rank({m}) vs brute"
            );
            assert_eq!(wgsl_rank(&words, m), bf, "{name}: wgsl_rank({m}) vs brute");
            assert_eq!(
                leaf.occupied_rank(m),
                wgsl_rank(&words, m),
                "{name}: occupied_rank vs WGSL transcription at {m}"
            );
        }
    }
}

#[test]
fn occupied_rank_telescopes_across_word_boundaries() {
    let mut leaves: Vec<LeafBrick> = rank_fixtures().into_iter().map(|(_, l)| l).collect();
    let mut state = 0xDEAD_BEEF_F00D_2026u64;
    for _ in 0..64 {
        let mut words = [0u32; 16];
        for w in &mut words {
            *w = next_u32(&mut state);
        }
        leaves.push(LeafBrick::from_words32(words));
    }
    for leaf in &leaves {
        let words = leaf.words32();
        for m in 0..511u32 {
            let bit = (words[(m >> 5) as usize] >> (m & 31)) & 1;
            assert_eq!(
                leaf.occupied_rank(m + 1),
                leaf.occupied_rank(m) + bit,
                "telescope broke at morton {m}"
            );
        }
    }
}

#[test]
fn occupied_rank_boundary_values() {
    for m in [0, 1, 31, 32, 33, 63, 64, 480, 511] {
        assert_eq!(LeafBrick::empty().occupied_rank(m), 0, "empty rank({m})");
    }
    let full = leaf_from_mortons(&(0..512).collect::<Vec<_>>());
    for m in 0..512u32 {
        assert_eq!(full.occupied_rank(m), m, "full rank({m})");
    }
    let s0 = leaf_from_mortons(&[0]);
    assert_eq!(s0.occupied_rank(0), 0);
    assert_eq!(s0.occupied_rank(1), 1);
    let s511 = leaf_from_mortons(&[511]);
    for m in 0..=511u32 {
        assert_eq!(
            s511.occupied_rank(m),
            0,
            "single@511 rank({m}) (nothing below)"
        );
    }
    let f5 = leaf_from_mortons(&[31, 32, 33, 63, 64]);
    assert_eq!(f5.occupied_rank(31), 0);
    assert_eq!(f5.occupied_rank(32), 1);
    assert_eq!(f5.occupied_rank(33), 2);
    assert_eq!(f5.occupied_rank(63), 3);
    assert_eq!(f5.occupied_rank(64), 4);
    assert_eq!(f5.occupied_rank(65), 5);
    let f6 = leaf_from_mortons(&[480, 481, 496, 511]);
    assert_eq!(f6.occupied_rank(480), 0);
    assert_eq!(f6.occupied_rank(481), 1);
    assert_eq!(f6.occupied_rank(496), 2);
    assert_eq!(f6.occupied_rank(511), 3);
    let f7 = leaf_from_mortons(&[32]);
    assert_eq!(f7.occupied_rank(32), 0);
    assert_eq!(f7.occupied_rank(33), 1);
}
