//! Valid grid resolutions.

use voxel_mip::resolution::MAX_K;
use voxel_mip::{Resolution, ResolutionError};

#[test]
fn valid_resolutions_round_trip_through_k() {
    for k in 0..=MAX_K {
        let r = Resolution::from_internal_levels(k).unwrap();
        assert_eq!(r.internal_levels(), k);
        assert_eq!(r.voxels_per_axis(), 8 * 4u32.pow(k));
        assert_eq!(Resolution::new(r.voxels_per_axis()).unwrap(), r);
    }
}

#[test]
fn named_resolutions() {
    assert_eq!(Resolution::new(8).unwrap().internal_levels(), 0);
    assert_eq!(Resolution::new(512).unwrap().internal_levels(), 3);
    assert_eq!(Resolution::new(2048).unwrap().internal_levels(), 4);
}

#[test]
fn level_counts_match_idea_md_section_4() {
    let r = Resolution::new(512).unwrap();
    assert_eq!(r.storage_levels(), 4);
    assert_eq!(r.traversal_levels(), 5);
    let r = Resolution::new(2048).unwrap();
    assert_eq!(r.storage_levels(), 5);
    assert_eq!(r.traversal_levels(), 6);
}

#[test]
fn rejects_1024_with_512_and_2048_bracket() {
    match Resolution::new(1024) {
        Err(ResolutionError::NotRepresentable {
            requested,
            nearest_below,
            nearest_above,
        }) => {
            assert_eq!(requested, 1024);
            assert_eq!(nearest_below, 512);
            assert_eq!(nearest_above, 2048);
        }
        other => panic!("expected NotRepresentable, got {other:?}"),
    }
}

#[test]
fn rejects_too_small_and_zero() {
    assert!(matches!(
        Resolution::new(0),
        Err(ResolutionError::TooSmall { .. })
    ));
    assert!(matches!(
        Resolution::new(7),
        Err(ResolutionError::TooSmall { .. })
    ));
}

#[test]
fn rejects_non_power_of_four_multiples_of_eight() {
    assert!(matches!(
        Resolution::new(16),
        Err(ResolutionError::NotRepresentable { .. })
    ));
    assert!(Resolution::new(24).is_err());
}

#[test]
fn total_voxels_does_not_overflow_for_2048() {
    let r = Resolution::new(2048).unwrap();
    assert_eq!(r.total_voxels(), 2048u128.pow(3));
}
