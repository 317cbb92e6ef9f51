use terrain_raymarch::quad::{height_sample_points, quad_extent, quad_vertices, QuadExtent};

#[test]
fn quad_vertices_scale_voxel_coordinates() {
    assert_eq!(quad_vertices((2, -1)), [[38, -19], [57, -19], [38, 0], [57, 0]]);
}

#[test]
fn quad_extent_finds_min_and_max() {
    assert_eq!(
        quad_extent([[5, 1], [-2, 7], [3, -4], [0, 0]]),
        QuadExtent { x_min: -2, z_min: -4, x_max: 5, z_max: 7 }
    );
    assert_eq!(
        quad_extent(quad_vertices((2, -1))),
        QuadExtent { x_min: 38, z_min: -19, x_max: 57, z_max: 0 }
    );
}

#[test]
fn height_samples_cover_corners_and_neighbours() {
    let e = QuadExtent { x_min: 0, z_min: 0, x_max: 19, z_max: 19 };
    assert_eq!(
        height_sample_points(e),
        [
            [0, 0],
            [19, 0],
            [0, 19],
            [19, 19],
            [-19, 19],
            [-19, 0],
            [0, -19],
            [19, -19],
            [38, -19],
            [38, 0]
        ]
    );
}
