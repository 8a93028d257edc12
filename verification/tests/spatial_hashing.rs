use fluid_simulator::constants::PARTICLE_COUNT;
use fluid_simulator::spatial_hashing::{
    get_cell_key, is_cell_hashable, is_neighbourhood_hashable, offset_coord, saturating_coord,
};

#[test]
fn cell_key_of_small_cells() {
    assert_eq!(get_cell_key((0, 0)), 0);
    assert_eq!(get_cell_key((1, 0)), 1259);
    assert_eq!(get_cell_key((0, 1)), 3109);
    assert_eq!(get_cell_key((2, 3)), 1845);
    assert_eq!(get_cell_key((4, 3)), 4363);
}

#[test]
fn cell_key_saturates_negative_coordinates() {
    assert_eq!(get_cell_key((-1, -1)), 0);
    assert_eq!(get_cell_key((-3, 7)), 1763);
    assert_eq!(get_cell_key((i64::MIN, 1)), 3109);
}

#[test]
fn cell_key_is_below_bucket_count() {
    for x in 0..40i64 {
        for y in 0..40i64 {
            assert!(get_cell_key((x, y)) < PARTICLE_COUNT as usize);
        }
    }
}

#[test]
fn saturating_coord_clamps() {
    assert_eq!(saturating_coord(-5), 0);
    assert_eq!(saturating_coord(0), 0);
    assert_eq!(saturating_coord(10), 10);
    assert_eq!(saturating_coord(4_294_967_295), u32::MAX);
    assert_eq!(saturating_coord(5_000_000_000), u32::MAX);
}

#[test]
fn offset_coord_moves_one_step() {
    assert_eq!(offset_coord(3, 1), 4);
    assert_eq!(offset_coord(3, -1), 2);
    assert_eq!(offset_coord(3, 0), 3);
    assert_eq!(offset_coord(i64::MIN, -1), i64::MIN);
    assert_eq!(offset_coord(i64::MAX, 1), i64::MAX);
}

#[test]
fn hashable_limit() {
    assert!(is_cell_hashable((3_411_411, 0)));
    assert!(!is_cell_hashable((3_411_412, 0)));
    assert!(is_cell_hashable((0, 1_381_462)));
    assert!(!is_cell_hashable((0, 1_381_463)));
    assert!(is_cell_hashable((-100, -100)));
    assert!(!is_cell_hashable((i64::MAX, 0)));
}

#[test]
fn neighbourhood_hashable_limit() {
    assert!(is_neighbourhood_hashable((3_411_410, -1)));
    assert!(!is_neighbourhood_hashable((3_411_411, -1)));
    assert!(is_neighbourhood_hashable((90, 43)));
}
