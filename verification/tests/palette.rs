//! Leaf palettes and the material table.

use voxel_mip::morton::encode_brick;
use voxel_mip::palette::{
    bits_required, pack_leaf, read_slot, LeafMaterials, PaletteError, HDR_OFF, IDX_OFF, IDX_WORDS,
    LEAF_VOXELS, MAX_BITS, MISSING_MAGENTA, PAL_OFF, P_CAP, STRIDE_W,
};
use voxel_mip::{MaterialError, MaterialTable};

fn wgsl_unpack(words: &[u32; STRIDE_W], morton: u32) -> u16 {
    const WGSL_IDX_OFF: usize = 9;
    const WGSL_PAL_OFF: usize = 1;
    let bits = words[0] & 0xF;
    let mut pi: u32 = 0;
    if bits != 0 {
        let off = morton * bits;
        let pos = off & 31;
        let iw = WGSL_IDX_OFF + (off >> 5) as usize;
        pi = words[iw] >> pos;
        if pos + bits > 32 {
            pi |= words[iw + 1] << (32 - pos);
        }
        pi &= (1u32 << bits) - 1;
    }
    let pal_word = words[WGSL_PAL_OFF + (pi >> 1) as usize];
    u16::try_from((pal_word >> (16 * (pi & 1))) & 0xFFFF).expect("masked to 16 bits")
}

#[test]
fn material_table_reserves_magenta_and_densifies_from_one() {
    let mut t = MaterialTable::missing_only();
    assert_eq!(t.words(), &[MISSING_MAGENTA]);
    assert_eq!(t.color(0), MISSING_MAGENTA);
    assert_eq!(t.push(0xFF00_FF00).unwrap(), 1);
    assert_eq!(t.push(0xFFFF_0000).unwrap(), 2);
    assert_eq!(t.color(1), 0xFF00_FF00);
    assert_eq!(t.color(2), 0xFFFF_0000);
    assert_eq!(t.color(3), MISSING_MAGENTA);
    assert_eq!(t.words().len(), 3);
}

#[test]
fn bits_required_redefines_minimum_to_zero() {
    assert_eq!(bits_required(0), 0);
    assert_eq!(bits_required(1), 0);
    assert_eq!(bits_required(2), 1);
    assert_eq!(bits_required(3), 2);
    assert_eq!(bits_required(4), 2);
    assert_eq!(bits_required(5), 3);
    assert_eq!(bits_required(8), 3);
    assert_eq!(bits_required(9), 4);
    assert_eq!(bits_required(16), 4);
    assert_eq!(bits_required(17), 5);
}

#[test]
fn cap_overflow_is_rejected() {
    let palette: Vec<u16> = (0..17).collect();
    let err = LeafMaterials::new(palette, vec![0u8; LEAF_VOXELS]).unwrap_err();
    assert_eq!(
        err,
        PaletteError::Overflow {
            len: 17,
            cap: P_CAP
        }
    );
}

#[test]
fn bad_index_and_len_are_rejected() {
    let mut idx = vec![0u8; LEAF_VOXELS];
    idx[5] = 2;
    assert_eq!(
        LeafMaterials::new(vec![10, 20], idx).unwrap_err(),
        PaletteError::BadIndex { index: 2, len: 2 }
    );
    assert_eq!(
        LeafMaterials::new(vec![10, 20], vec![0u8; 511]).unwrap_err(),
        PaletteError::WrongIndexLen { got: 511 }
    );
}

fn assert_full_leaf_roundtrip(palette: Vec<u16>, assign: impl Fn(u32, u32, u32) -> u8) {
    let plen = palette.len();
    let expected = palette.clone();
    let leaf = LeafMaterials::from_local(palette, &assign).unwrap();
    let packed = leaf.pack();
    for z in 0..8u32 {
        for y in 0..8u32 {
            for x in 0..8u32 {
                let m = encode_brick(x, y, z);
                let pi = assign(x, y, z);
                assert!(usize::from(pi) < plen);
                let got = wgsl_unpack(&packed, m);
                assert_eq!(
                    read_slot(&packed, m),
                    got,
                    "read_slot disagrees with the WGSL transcription at ({x},{y},{z}) morton {m}"
                );
                assert_eq!(
                    got,
                    expected[usize::from(pi)],
                    "drift at voxel ({x},{y},{z}) morton {m}: bits={}",
                    leaf.bits()
                );
            }
        }
    }
}

#[test]
fn palette_wgsl_bit_layout_matches_pack() {
    assert_full_leaf_roundtrip(vec![42], |_, _, _| 0);

    assert_full_leaf_roundtrip(vec![10, 20], |x, _, _| u8::from(x >= 4));

    assert_full_leaf_roundtrip(vec![1, 2, 3, 4], |x, y, _| ((x + y) % 4) as u8);

    assert_full_leaf_roundtrip(vec![1, 2, 3, 4, 5, 6, 7, 8], |x, y, z| {
        ((x + 2 * y + 3 * z) % 8) as u8
    });

    let pal16: Vec<u16> = (100..116).collect();
    assert_full_leaf_roundtrip(pal16, |x, y, z| ((x ^ y ^ z) & 15) as u8);
}

#[test]
fn straddle_and_half_select_are_explicit() {
    let bits = 3u32;
    let m = 10u32;
    assert_eq!(m * bits, 30);
    assert!((30 & 31) + bits > 32, "morton 10 must straddle at bits=3");

    let palette = vec![0u16, 11, 0x2222, 0x3333];
    let leaf = LeafMaterials::from_local(palette.clone(), |x, _, _| match x {
        0 => 2,
        1 => 3,
        _ => 0,
    })
    .unwrap();
    let packed = leaf.pack();
    assert_eq!(packed[PAL_OFF + 1], 0x3333_2222);
    assert_eq!(wgsl_unpack(&packed, encode_brick(0, 0, 0)), 0x2222);
    assert_eq!(wgsl_unpack(&packed, encode_brick(1, 0, 0)), 0x3333);
}

#[test]
fn pack_leaf_uniform_multi_and_spill() {
    let mats = [7u16; LEAF_VOXELS];
    let packed = pack_leaf(&mats, |_, _, _| true);
    assert_eq!(
        packed[HDR_OFF] & 0xF,
        0,
        "single-material leaf must be bits=0"
    );
    for m in 0..u32::try_from(LEAF_VOXELS).unwrap() {
        assert_eq!(wgsl_unpack(&packed, m), 7);
    }

    let mut mats = [0u16; LEAF_VOXELS];
    for z in 0..8u32 {
        for y in 0..8u32 {
            for x in 0..8u32 {
                mats[encode_brick(x, y, z) as usize] = if x < 4 { 11 } else { 22 };
            }
        }
    }
    let packed = pack_leaf(&mats, |_, _, _| true);
    for z in 0..8u32 {
        for y in 0..8u32 {
            for x in 0..8u32 {
                let m = encode_brick(x, y, z);
                assert_eq!(wgsl_unpack(&packed, m), if x < 4 { 11 } else { 22 });
            }
        }
    }

    let mut mats = [0u16; LEAF_VOXELS];
    for i in 0..17u32 {
        mats[encode_brick(i % 8, i / 8, 0) as usize] = u16::try_from(100 + i).unwrap();
    }
    let occ = |x: u32, y: u32, z: u32| z == 0 && y * 8 + x < 17;
    let packed = pack_leaf(&mats, occ);
    assert_eq!(
        (packed[HDR_OFF] >> 14) & 1,
        1,
        "over-cap leaf must set spill_flag"
    );
    for i in 0..17u32 {
        assert_eq!(
            wgsl_unpack(&packed, encode_brick(i % 8, i / 8, 0)),
            0,
            "spilled leaf must read uniform magenta (global-0)"
        );
    }
}

#[test]
fn slot_geometry_is_consistent() {
    assert_eq!(STRIDE_W, 73);
    assert_eq!(IDX_OFF, PAL_OFF + (P_CAP as usize) / 2);
    assert_eq!(IDX_WORDS, LEAF_VOXELS * (MAX_BITS as usize) / 32);
    assert_eq!(MAX_BITS, bits_required(P_CAP));
}

#[test]
fn push_accepts_65535_real_materials_then_rejects() {
    let mut table = MaterialTable::missing_only();
    for expected_id in 1..=u16::MAX {
        assert_eq!(
            table.push(0xDEAD_BEEF),
            Ok(expected_id),
            "real material {expected_id} must fit"
        );
    }
    assert_eq!(
        table.push(0xDEAD_BEEF),
        Err(MaterialError::TableFull),
        "the 65536th real material must be rejected"
    );
}

#[test]
fn random_palettes_read_back() {
    for plen in 1u64..=16 {
        let palette: Vec<u16> = (0..plen).map(|i| 1000u16 + i as u16).collect();
        let assign = |x: u32, y: u32, z: u32| -> u8 {
            let m = u64::from(encode_brick(x, y, z));
            let h = (m.wrapping_mul(0x9E37_79B9_7F4A_7C15) ^ plen)
                .wrapping_mul(0xBF58_476D_1CE4_E5B9);
            ((h >> 33) % plen) as u8
        };
        let leaf = LeafMaterials::from_local(palette.clone(), assign).unwrap();
        let packed = leaf.pack();
        for z in 0..8u32 {
            for y in 0..8u32 {
                for x in 0..8u32 {
                    let pi = assign(x, y, z);
                    assert_eq!(read_slot(&packed, encode_brick(x, y, z)), palette[usize::from(pi)]);
                }
            }
        }
    }
}
