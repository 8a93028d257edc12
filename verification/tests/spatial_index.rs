use fluid_simulator::constants::PARTICLE_COUNT;
use fluid_simulator::spatial_hashing::get_cell_key;
use fluid_simulator::spatial_index::SpatialIndex;

const N: usize = PARTICLE_COUNT as usize;

fn grid_cells() -> Vec<(i64, i64)> {
    (0..N).map(|p| ((p % 7) as i64, (p % 5) as i64)).collect()
}

fn band_cells() -> Vec<(i64, i64)> {
    (0..N).map(|p| (((p * 3) % 11) as i64, (p / 500) as i64)).collect()
}

fn sorted_index(cells: &Vec<(i64, i64)>) -> SpatialIndex {
    let mut index = SpatialIndex::new();
    index.update_cell_particles(cells);
    index
}

#[test]
fn new_index_starting_state() {
    let index = SpatialIndex::new();
    assert_eq!(index.particle_indexes().len(), N);
    assert_eq!(index.particle_cell_keys().len(), N);
    assert_eq!(index.particle_start_indexes().len(), N);
    for i in 0..N {
        assert_eq!(index.particle_indexes()[i], i);
        assert_eq!(index.particle_cell_keys()[i], 0);
        assert_eq!(index.particle_start_indexes()[i], 0);
    }
}

#[test]
fn update_sorts_keys_and_keeps_pairs() {
    let cells = grid_cells();
    let index = sorted_index(&cells);
    let keys = index.particle_cell_keys();
    let idx = index.particle_indexes();
    for i in 1..N {
        assert!(keys[i - 1] <= keys[i]);
    }
    for i in 0..N {
        assert_eq!(keys[i], get_cell_key(cells[idx[i]]));
    }
    let mut seen = vec![false; N];
    for &p in idx {
        assert!(!seen[p]);
        seen[p] = true;
    }
}

#[test]
fn update_selection_sort_order() {
    let index = sorted_index(&grid_cells());
    let idx = index.particle_indexes();
    assert_eq!(&idx[..12], &[0, 35, 70, 105, 140, 175, 210, 245, 280, 315, 350, 385]);
    assert_eq!(&idx[N - 5..], &[2712, 1032, 2082, 2957, 4287]);
}

#[test]
fn update_start_indexes() {
    let index = sorted_index(&grid_cells());
    let starts = index.particle_start_indexes();
    assert_eq!(starts[0], 0);
    assert_eq!(starts[36], 143);
    assert_eq!(starts[622], 429);
    assert_eq!(starts[4995], 4857);
    // keys that no cell has keep their starting slot
    assert_eq!(starts[1], 0);
    assert_eq!(starts[37], 0);
}

#[test]
fn update_starts_from_previous_order() {
    let mut index = sorted_index(&grid_cells());
    index.update_cell_particles(&band_cells());
    let idx = index.particle_indexes();
    assert_eq!(&idx[..12], &[0, 385, 165, 253, 33, 418, 121, 286, 374, 462, 77, 242]);
    assert_eq!(&idx[N - 5..], &[1431, 1464, 1255, 1277, 1068]);
    let starts = index.particle_start_indexes();
    assert_eq!(starts[26], 46);
    assert_eq!(starts[72], 181);
}

#[test]
fn update_keeps_start_of_vanished_key() {
    let mut index = sorted_index(&grid_cells());
    let cells: Vec<(i64, i64)> = (0..N).map(|p| ((p % 2) as i64, 0)).collect();
    index.update_cell_particles(&cells);
    let idx = index.particle_indexes();
    assert_eq!(&idx[..6], &[0, 70, 140, 210, 280, 350]);
    assert_eq!(&idx[2500..2504], &[2357, 1377, 1587, 3757]);
    let starts = index.particle_start_indexes();
    assert_eq!(starts[0], 0);
    assert_eq!(starts[1259], 2500);
    assert_eq!(starts[36], 143);
    assert_eq!(starts[4995], 4857);
}

#[test]
fn update_again_with_same_cells_changes_nothing() {
    let cells = band_cells();
    let mut index = sorted_index(&grid_cells());
    index.update_cell_particles(&cells);
    let idx1 = index.particle_indexes().to_vec();
    let keys1 = index.particle_cell_keys().to_vec();
    let starts1 = index.particle_start_indexes().to_vec();
    index.update_cell_particles(&cells);
    assert_eq!(index.particle_indexes(), &idx1[..]);
    assert_eq!(index.particle_cell_keys(), &keys1[..]);
    assert_eq!(index.particle_start_indexes(), &starts1[..]);
}

#[test]
fn bucket_lookup_finds_exactly_its_cells() {
    let cells = grid_cells();
    let index = sorted_index(&cells);
    // the bucket of cell (3, 2) holds the particles in that cell and nothing else
    let found = index.neighbours((3, 2));
    for p in 0..N {
        let near = (cells[p].0 - 3).abs() <= 1 && (cells[p].1 - 2).abs() <= 1;
        if near {
            assert!(found.contains(&p));
        }
    }
    for &p in &found {
        let k = get_cell_key(cells[p]);
        let mut any = false;
        for t in 0..9i64 {
            if get_cell_key((3 + t / 3 - 1, 2 + t % 3 - 1)) == k {
                any = true;
            }
        }
        assert!(any);
    }
}

#[test]
fn neighbours_visit_order_and_count() {
    let index = sorted_index(&grid_cells());
    let found = index.neighbours((2, 2));
    assert_eq!(found.len(), 1286);
    assert_eq!(&found[..5], &[1436, 2311, 3781, 2871, 4306]);
    let corner = index.neighbours((0, 0));
    assert_eq!(corner.len(), 1287);
    assert_eq!(&corner[..5], &[0, 35, 70, 105, 140]);
}

#[test]
fn neighbours_at_border_repeat_saturated_cells() {
    // all particles in cell (0, 0) except three
    let mut cells: Vec<(i64, i64)> = vec![(0, 0); N];
    cells[7] = (1, 0);
    cells[10] = (1, 0);
    cells[3] = (0, 1);
    let index = sorted_index(&cells);
    let keys = index.particle_cell_keys();
    assert_eq!(keys[N - 3], 1259);
    assert_eq!(keys[N - 1], 3109);
    assert_eq!(index.particle_start_indexes()[1259], N - 3);
    assert_eq!(index.particle_start_indexes()[3109], N - 1);
    let found = index.neighbours((0, 0));
    // cells (-1,-1), (-1,0), (0,-1), (0,0) all saturate to (0, 0)
    assert_eq!(found.len(), 4 * (N - 3) + 2 * 1 + 2 * 2);
    assert_eq!(found.iter().filter(|&&p| p == 3).count(), 2);
    assert_eq!(found.iter().filter(|&&p| p == 7).count(), 2);
    assert_eq!(found.iter().filter(|&&p| p == 0).count(), 4);
}

#[test]
fn neighbours_of_new_index() {
    let index = SpatialIndex::new();
    // every slot has key 0, which is the key of cell (0, 0)
    let found = index.neighbours((0, 0));
    assert_eq!(found.len(), 4 * N);
    let far = index.neighbours((10, 10));
    assert_eq!(far.len(), 0);
}
