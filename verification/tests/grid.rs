use terrain_raymarch::grid::{
    get_index, grid_layout, nearest_power_of_two, positive_mod, truncated_rem, BUFFER_MASK,
    BUFFER_SHIFT, BUFFER_SIZE, DESIRED_CHUNKS_PER_EDGE, RENDER_DIST_VOXELS,
};

#[test]
fn nearest_power_of_two_of_desired_chunks_is_512() {
    assert_eq!(nearest_power_of_two(666), 512);
}

#[test]
fn nearest_power_of_two_rounds_up_when_closer() {
    assert_eq!(nearest_power_of_two(800), 1024);
    assert_eq!(nearest_power_of_two(5), 4);
    assert_eq!(nearest_power_of_two(7), 8);
}

#[test]
fn nearest_power_of_two_tie_prefers_lower() {
    // 6 is 2 away from both 4 and 8
    assert_eq!(nearest_power_of_two(6), 4);
    assert_eq!(nearest_power_of_two(3), 2);
    assert_eq!(nearest_power_of_two(768), 512);
}

#[test]
fn nearest_power_of_two_keeps_powers_and_zero() {
    assert_eq!(nearest_power_of_two(0), 0);
    assert_eq!(nearest_power_of_two(1), 1);
    assert_eq!(nearest_power_of_two(2), 2);
    assert_eq!(nearest_power_of_two(1024), 1024);
    assert_eq!(nearest_power_of_two(0x8000_0000), 0x8000_0000);
}

#[test]
fn nearest_power_of_two_is_never_farther_than_any_power() {
    for x in 1u32..5000 {
        let r = nearest_power_of_two(x) as i64;
        assert!(r.count_ones() == 1);
        for e in 0..20 {
            let p = 1i64 << e;
            let dr = (x as i64 - r).abs();
            let dp = (x as i64 - p).abs();
            assert!(dr <= dp);
            if dr == dp {
                assert!(r <= p);
            }
        }
    }
}

#[test]
fn layout_of_desired_chunks_matches_constants() {
    let g = grid_layout(DESIRED_CHUNKS_PER_EDGE);
    assert_eq!(g.buffer_size, BUFFER_SIZE);
    assert_eq!(g.render_dist_voxels, RENDER_DIST_VOXELS);
    assert_eq!(g.buffer_mask, BUFFER_MASK);
    assert_eq!(g.buffer_shift, BUFFER_SHIFT);
    assert_eq!(g.buffer_size, 512);
    assert_eq!(g.render_dist_voxels, 256);
    assert_eq!(g.buffer_mask, 511);
    assert_eq!(g.buffer_shift, 9);
}

#[test]
fn layout_edge_cases() {
    let g = grid_layout(0);
    assert_eq!(g.buffer_size, 0);
    assert_eq!(g.render_dist_voxels, 0);
    assert_eq!(g.buffer_mask, usize::MAX);
    assert_eq!(g.buffer_shift, 32);
    let g = grid_layout(1);
    assert_eq!(g.buffer_size, 1);
    assert_eq!(g.render_dist_voxels, 0);
    assert_eq!(g.buffer_mask, 0);
    assert_eq!(g.buffer_shift, 0);
    let g = grid_layout(0x6000_0000);
    assert_eq!(g.buffer_size, 0x4000_0000);
    assert_eq!(g.buffer_shift, 30);
    let g = grid_layout(100);
    assert_eq!(g.buffer_size, 128);
    assert_eq!(g.render_dist_voxels, 64);
    assert_eq!(g.buffer_mask, 127);
    assert_eq!(g.buffer_shift, 7);
}

#[test]
fn get_index_lays_out_rows_by_z() {
    assert_eq!(get_index(0, 0), 0);
    assert_eq!(get_index(1, 0), 1);
    assert_eq!(get_index(0, 1), 512);
    assert_eq!(get_index(3, 2), 2 * 512 + 3);
    assert_eq!(get_index(511, 511), 512 * 512 - 1);
}

#[test]
fn get_index_wraps_negative_and_large_coordinates() {
    assert_eq!(get_index(-1, 0), 511);
    assert_eq!(get_index(0, -1), 511 * 512);
    assert_eq!(get_index(512, 0), 0);
    assert_eq!(get_index(-513, -2), 510 * 512 + 511);
    assert_eq!(get_index(i32::MIN, i32::MAX), 511 * 512);
}

#[test]
fn get_index_is_periodic_and_injective_on_a_window() {
    for (x, z) in [(5, 7), (-300, 12), (1000, -1000)] {
        assert_eq!(get_index(x, z), get_index(x + 512, z));
        assert_eq!(get_index(x, z), get_index(x, z - 512));
    }
    let mut seen = vec![false; 512 * 512];
    for z in -100..412 {
        for x in 37..549 {
            let i = get_index(x, z);
            assert!(!seen[i]);
            seen[i] = true;
        }
    }
    assert!(seen.iter().all(|b| *b));
}

#[test]
fn truncated_rem_follows_the_dividend_sign() {
    assert_eq!(truncated_rem(7, 3), 1);
    assert_eq!(truncated_rem(-7, 3), -1);
    assert_eq!(truncated_rem(7, -3), 1);
    assert_eq!(truncated_rem(-7, -3), -1);
    assert_eq!(truncated_rem(i32::MIN, -1), 0);
    assert_eq!(truncated_rem(i32::MIN, i32::MIN), 0);
    assert_eq!(truncated_rem(i32::MAX, i32::MIN), i32::MAX);
}

#[test]
fn positive_mod_gives_euclidean_remainder_for_positive_modulus() {
    assert_eq!(positive_mod(7, 3), 1);
    assert_eq!(positive_mod(-7, 3), 2);
    assert_eq!(positive_mod(-9, 3), 0);
    assert_eq!(positive_mod(0, 5), 0);
    for a in -50..50 {
        for b in 1..12 {
            assert_eq!(positive_mod(a, b) as i32, a.rem_euclid(b));
        }
    }
}

#[test]
fn positive_mod_with_negative_modulus() {
    // ((7 % -3) + -3) % -3 = (1 - 3) % -3 = -2, converted to usize
    assert_eq!(positive_mod(7, -3), (-2i32) as usize);
    assert_eq!(positive_mod(-7, -3), (-1i32) as usize);
    assert_eq!(positive_mod(6, -3), 0);
}
