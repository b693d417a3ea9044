//! The procedural fixtures.

use voxel_mip::fixtures::{Checkerboard, Dust, OctantFractal, WireLattice};
use voxel_mip::{OccupancyField, Resolution, VoxelCoord};

fn res(n: u32) -> Resolution {
    Resolution::new(n).unwrap()
}

#[test]
fn wire_lattice_is_wires_not_planes() {
    let w = WireLattice::new(res(128));
    assert!(w.is_occupied(VoxelCoord::new(0, 0, 5)));
    assert!(!w.is_occupied(VoxelCoord::new(0, 5, 5)));
    assert!(!w.is_occupied(VoxelCoord::new(8, 8, 8)));
}

#[test]
#[allow(clippy::cast_precision_loss)]
fn dust_density_is_roughly_right() {
    let d = Dust {
        resolution: res(128),
        density: 64,
    };
    let n = 128u32;
    let mut count = 0u64;
    for z in 0..n {
        for y in 0..n {
            for x in 0..n {
                if d.is_occupied(VoxelCoord::new(x, y, z)) {
                    count += 1;
                }
            }
        }
    }
    let total = u64::from(n).pow(3);
    let frac = count as f64 / total as f64;
    assert!(
        frac > 0.008 && frac < 0.025,
        "dust fraction {frac} off ~1/64"
    );
}

#[test]
fn checkerboard_parity() {
    let cb = Checkerboard { resolution: res(8) };
    assert!(cb.is_occupied(VoxelCoord::new(0, 0, 0)));
    assert!(!cb.is_occupied(VoxelCoord::new(1, 0, 0)));
    assert!(cb.is_occupied(VoxelCoord::new(1, 1, 0)));
}

#[test]
fn fractal_occupied_count_is_keep_to_the_levels() {
    for n in [8u32, 32, 128] {
        let r = res(n);
        let frac = OctantFractal::sierpinski_tetrahedron(r);
        let levels = r.axis_bits();
        let expected = u64::from(frac.keep.count_ones()).pow(levels);
        let mut count = 0u64;
        for z in 0..n {
            for y in 0..n {
                for x in 0..n {
                    if frac.is_occupied(VoxelCoord::new(x, y, z)) {
                        count += 1;
                    }
                }
            }
        }
        assert_eq!(count, expected, "n={n}");
    }
}

#[test]
fn fractal_origin_voxel_always_kept_when_octant_zero_in_mask() {
    let r = res(128);
    assert!(OctantFractal::sierpinski_tetrahedron(r).is_occupied(VoxelCoord::new(0, 0, 0)));
    assert!(OctantFractal::cantor_dust(r).is_occupied(VoxelCoord::new(0, 0, 0)));
}
