use terrain_raymarch::grid::{get_index, BUFFER_SIZE, RENDER_DIST_VOXELS};
use terrain_raymarch::terrain::{
    edge_strip_cells_vec, fill_cells, rect_cells_vec, refresh_cells, sort_changes_by_slot,
    stage_terrain_updates, window_cells_vec, Change, TerrainStore,
};

const B: usize = BUFFER_SIZE as usize;
const R: i32 = RENDER_DIST_VOXELS;

fn holds_window(store: &TerrainStore, px: i32, pz: i32) -> bool {
    for z in pz - R..pz + R {
        for x in px - R..px + R {
            if store.quad_coords[get_index(x, z)] != (x, z) {
                return false;
            }
        }
    }
    true
}

#[test]
fn default_store_is_uninitialized_and_full_of_origin_quads() {
    let store = TerrainStore::default();
    assert!(!store.initialized);
    assert_eq!(store.quad_coords.len(), B * B);
    assert!(store.quad_coords.iter().all(|c| *c == (0, 0)));
}

#[test]
fn rect_cells_are_listed_row_by_row() {
    assert_eq!(
        rect_cells_vec(1, 3, 5, 7),
        vec![(1, 5), (2, 5), (1, 6), (2, 6)]
    );
    assert!(rect_cells_vec(3, 3, 0, 10).is_empty());
    assert!(rect_cells_vec(0, 10, 4, 2).is_empty());
}

#[test]
fn window_has_one_voxel_per_slot() {
    let cells = window_cells_vec(10, -20);
    assert_eq!(cells.len(), B * B);
    assert_eq!(cells[0], (10 - R, -20 - R));
    assert_eq!(cells[1], (11 - R, -20 - R));
    assert_eq!(cells[B], (10 - R, -19 - R));
    assert_eq!(*cells.last().unwrap(), (9 + R, -21 + R));
}

#[test]
fn sort_changes_orders_by_slot_and_keeps_all() {
    let changes: Vec<Change> = vec![(5, (1, 1)), (2, (2, 2)), (9, (3, 3)), (2, (4, 4)), (0, (5, 5))];
    let sorted = sort_changes_by_slot(&changes);
    let slots: Vec<usize> = sorted.iter().map(|c| c.0).collect();
    assert_eq!(slots, vec![0, 2, 2, 5, 9]);
    let mut a = changes.clone();
    let mut b = sorted.clone();
    a.sort();
    b.sort();
    assert_eq!(a, b);
}

#[test]
fn first_frame_generates_the_whole_window_in_slot_order() {
    let mut store = TerrainStore::default();
    let staged = stage_terrain_updates(&mut store, (3, -4), false, 0).unwrap();
    assert!(store.initialized);
    assert_eq!(staged.len(), B * B);
    for (s, change) in staged.iter().enumerate() {
        assert_eq!(change.0, s);
        assert_eq!(get_index(change.1 .0, change.1 .1), s);
        assert_eq!(store.quad_coords[s], change.1);
    }
    assert!(holds_window(&store, 3, -4));
}

#[test]
fn standing_still_stages_nothing() {
    let mut store = TerrainStore::default();
    stage_terrain_updates(&mut store, (0, 0), false, 0);
    let before = store.quad_coords.clone();
    assert!(stage_terrain_updates(&mut store, (0, 0), false, 1).is_none());
    assert_eq!(store.quad_coords, before);
}

#[test]
fn moving_without_leaving_the_voxel_stages_nothing_new() {
    let mut store = TerrainStore::default();
    stage_terrain_updates(&mut store, (0, 0), false, 0);
    let staged = stage_terrain_updates(&mut store, (0, 0), true, 1).unwrap();
    assert!(staged.is_empty());
}

#[test]
fn stepping_one_voxel_regenerates_the_new_row() {
    let mut store = TerrainStore::default();
    stage_terrain_updates(&mut store, (0, 0), false, 0);
    let staged = stage_terrain_updates(&mut store, (0, 1), true, 1).unwrap();
    // the row z = R enters the window, everything else is already held
    assert_eq!(staged.len(), B);
    for w in staged.windows(2) {
        assert!(w[0].0 < w[1].0);
    }
    for change in &staged {
        assert_eq!(change.1 .1, R);
        assert_eq!(change.0, get_index(change.1 .0, change.1 .1));
    }
    assert!(holds_window(&store, 0, 1));
}

#[test]
fn diagonal_steps_keep_the_store_on_the_window() {
    let mut store = TerrainStore::default();
    stage_terrain_updates(&mut store, (0, 0), false, 0);
    let path = [(1, 1), (3, 2), (3, 0), (1, -2), (-1, -2)];
    for &(x, z) in &path {
        let staged = stage_terrain_updates(&mut store, (x, z), true, 2).unwrap();
        for change in &staged {
            assert_eq!(store.quad_coords[change.0], change.1);
        }
        assert!(holds_window(&store, x, z));
    }
}

#[test]
fn edge_strips_cover_the_border_band_once() {
    let (px, pz, v) = (5, -3, 3);
    let cells = edge_strip_cells_vec(px, pz, v);
    let mut expected = 0;
    for z in pz - R..pz + R {
        for x in px - R..px + R {
            let in_band = z >= pz + R - v || z < pz - R + v || x < px - R + v || x >= px + R - v;
            let count = cells.iter().filter(|c| **c == (x, z)).count();
            assert_eq!(count, if in_band { 1 } else { 0 });
            if in_band {
                expected += 1;
            }
        }
    }
    assert_eq!(cells.len(), expected);
    assert!(edge_strip_cells_vec(0, 0, 0).is_empty());
}

#[test]
fn refresh_only_stages_stale_voxels() {
    let mut store = TerrainStore::default();
    let cells = vec![(0, 0), (1, 0), (0, 0), (512, 0)];
    let changes = refresh_cells(&mut store, &cells);
    // (0, 0) is already held by the default store; (512, 0) replaces it afterwards
    assert_eq!(changes, vec![(1, (1, 0)), (0, (512, 0))]);
    assert_eq!(store.quad_coords[0], (512, 0));
    assert_eq!(store.quad_coords[1], (1, 0));
}

#[test]
fn fill_stages_every_voxel() {
    let mut store = TerrainStore::default();
    let cells = vec![(0, 0), (2, 1)];
    let changes = fill_cells(&mut store, &cells);
    assert_eq!(changes, vec![(0, (0, 0)), (514, (2, 1))]);
    assert_eq!(store.quad_coords[514], (2, 1));
}

#[test]
fn standing_still_far_out_needs_no_window() {
    let mut store = TerrainStore::default();
    stage_terrain_updates(&mut store, (0, 0), false, 0);
    // the window around this voxel does not fit in i32, but standing still computes none
    assert!(stage_terrain_updates(&mut store, (i32::MAX, i32::MIN), false, 3).is_none());
}

#[test]
fn wide_strips_stage_each_slot_once_in_ascending_order() {
    let mut store = TerrainStore::default();
    stage_terrain_updates(&mut store, (0, 0), false, 0);
    let staged = stage_terrain_updates(&mut store, (300, -200), true, 512).unwrap();
    // the old and new windows share (512 - 300) * (512 - 200) voxels, which stay
    assert_eq!(staged.len(), B * B - 212 * 312);
    for w in staged.windows(2) {
        assert!(w[0].0 < w[1].0);
    }
    for change in &staged {
        assert_eq!(change.0, get_index(change.1 .0, change.1 .1));
        assert_eq!(store.quad_coords[change.0], change.1);
    }
    assert!(holds_window(&store, 300, -200));
}
