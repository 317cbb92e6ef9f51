//! The integer geometry of one terrain quad: its corner vertices and the points at
//! which the height field is sampled to shade it.
use crate::grid::VOXEL_SIZE;
use vstd::prelude::*;

verus! {

/// The world-space `[x, z]` corners of the quad at voxel `coords`, in the order
/// `(x_min, z_min)`, `(x_max, z_min)`, `(x_min, z_max)`, `(x_max, z_max)`.
pub open spec fn spec_quad_vertices(x: int, z: int) -> Seq<Seq<int>> {
    let v = VOXEL_SIZE as int;
    seq![seq![v * x, v * z], seq![v * x + v, v * z], seq![v * x, v * z + v], seq![v * x + v, v * z + v]]
}

/// Creates the corners of the quad at the given voxel coordinates.
pub fn quad_vertices(coords: (i32, i32)) -> (vertexes: [[i32; 2]; 4])
    requires
        i32::MIN <= VOXEL_SIZE * coords.0 && VOXEL_SIZE * coords.0 + VOXEL_SIZE <= i32::MAX,
        i32::MIN <= VOXEL_SIZE * coords.1 && VOXEL_SIZE * coords.1 + VOXEL_SIZE <= i32::MAX,
    ensures
        forall|i: int, j: int|
            0 <= i < 4 && 0 <= j < 2 ==> vertexes@[i]@[j] as int == #[trigger] spec_quad_vertices(
                coords.0 as int,
                coords.1 as int,
            )[i][j],
{
    let x = VOXEL_SIZE * coords.0;
    let z = VOXEL_SIZE * coords.1;
    let vertexes = [[x, z], [x + VOXEL_SIZE, z], [x, z + VOXEL_SIZE], [x + VOXEL_SIZE, z + VOXEL_SIZE]];
    vertexes
}

/// The bounding box of a quad given by its vertices.
#[derive(Clone, Copy, Debug, PartialEq, Eq)]
pub struct QuadExtent {
    pub x_min: i32,
    pub z_min: i32,
    pub x_max: i32,
    pub z_max: i32,
}

/// The smallest of four values.
pub open spec fn min4(a: int, b: int, c: int, d: int) -> int {
    let ab = if a <= b { a } else { b };
    let cd = if c <= d { c } else { d };
    if ab <= cd { ab } else { cd }
}

/// The largest of four values.
pub open spec fn max4(a: int, b: int, c: int, d: int) -> int {
    let ab = if a >= b { a } else { b };
    let cd = if c >= d { c } else { d };
    if ab >= cd { ab } else { cd }
}

fn min_i32(a: i32, b: i32) -> (m: i32)
    ensures
        m == if a <= b { a } else { b },
{
    if a <= b {
        a
    } else {
        b
    }
}

fn max_i32(a: i32, b: i32) -> (m: i32)
    ensures
        m == if a >= b { a } else { b },
{
    if a >= b {
        a
    } else {
        b
    }
}

/// `min4` is no larger than any of its four values and equals one of them; `max4`
/// is no smaller than any and equals one of them, whatever the order of the values.
pub proof fn lemma_min4_max4_are_extremes(a: int, b: int, c: int, d: int)
    ensures
        min4(a, b, c, d) <= a && min4(a, b, c, d) <= b && min4(a, b, c, d) <= c && min4(a, b, c, d) <= d,
        min4(a, b, c, d) == a || min4(a, b, c, d) == b || min4(a, b, c, d) == c || min4(a, b, c, d) == d,
        max4(a, b, c, d) >= a && max4(a, b, c, d) >= b && max4(a, b, c, d) >= c && max4(a, b, c, d) >= d,
        max4(a, b, c, d) == a || max4(a, b, c, d) == b || max4(a, b, c, d) == c || max4(a, b, c, d) == d,
{
}

/// Finds the smallest and largest `x` and `z` among four `[x, z]` vertices.
pub fn quad_extent(vertexes: [[i32; 2]; 4]) -> (e: QuadExtent)
    ensures
        e.x_min == min4(vertexes@[0]@[0] as int, vertexes@[1]@[0] as int, vertexes@[2]@[0] as int, vertexes@[3]@[0] as int),
        e.z_min == min4(vertexes@[0]@[1] as int, vertexes@[1]@[1] as int, vertexes@[2]@[1] as int, vertexes@[3]@[1] as int),
        e.x_max == max4(vertexes@[0]@[0] as int, vertexes@[1]@[0] as int, vertexes@[2]@[0] as int, vertexes@[3]@[0] as int),
        e.z_max == max4(vertexes@[0]@[1] as int, vertexes@[1]@[1] as int, vertexes@[2]@[1] as int, vertexes@[3]@[1] as int),
        forall|i: int|
            0 <= i < 4 ==> e.x_min <= (#[trigger] vertexes@[i])@[0] <= e.x_max && e.z_min <= vertexes@[i]@[1]
                <= e.z_max,
        exists|i: int| 0 <= i < 4 && e.x_min == (#[trigger] vertexes@[i])@[0],
        exists|i: int| 0 <= i < 4 && e.z_min == (#[trigger] vertexes@[i])@[1],
        exists|i: int| 0 <= i < 4 && e.x_max == (#[trigger] vertexes@[i])@[0],
        exists|i: int| 0 <= i < 4 && e.z_max == (#[trigger] vertexes@[i])@[1],
{
    proof {
        let v = vertexes@;
        lemma_min4_max4_are_extremes(v[0]@[0] as int, v[1]@[0] as int, v[2]@[0] as int, v[3]@[0] as int);
        lemma_min4_max4_are_extremes(v[0]@[1] as int, v[1]@[1] as int, v[2]@[1] as int, v[3]@[1] as int);
    }
    let x_min = min_i32(min_i32(vertexes[0][0], vertexes[1][0]), min_i32(vertexes[2][0], vertexes[3][0]));
    let z_min = min_i32(min_i32(vertexes[0][1], vertexes[1][1]), min_i32(vertexes[2][1], vertexes[3][1]));
    let x_max = max_i32(max_i32(vertexes[0][0], vertexes[1][0]), max_i32(vertexes[2][0], vertexes[3][0]));
    let z_max = max_i32(max_i32(vertexes[0][1], vertexes[1][1]), max_i32(vertexes[2][1], vertexes[3][1]));
    QuadExtent { x_min, z_min, x_max, z_max }
}


/// The `[x, z]` points at which the height field is sampled for a quad with extent
/// `e`: its four corners (`(x_min, z_min)`, `(x_max, z_min)`, `(x_min, z_max)`,
/// `(x_max, z_max)`), then the six neighbouring vertices whose triangles share the
/// corners at `z_min`: `(x_min - v, z_max)`, `(x_min - v, z_min)`, `(x_min, z_min - v)`,
/// `(x_max, z_min - v)`, `(x_max + v, z_min - v)` and `(x_max + v, z_min)`, with `v`
/// the voxel size.
pub open spec fn spec_height_sample_points(e: QuadExtent) -> Seq<(int, int)> {
    let v = VOXEL_SIZE as int;
    let (x0, z0, x1, z1) = (e.x_min as int, e.z_min as int, e.x_max as int, e.z_max as int);
    seq![
        (x0, z0),
        (x1, z0),
        (x0, z1),
        (x1, z1),
        (x0 - v, z1),
        (x0 - v, z0),
        (x0, z0 - v),
        (x1, z0 - v),
        (x1 + v, z0 - v),
        (x1 + v, z0),
    ]
}

/// The first four samples are the corners of the extent, and each of the other six
/// is a corner moved by one voxel: `[4]` is the corner `(x_min, z_max)` moved by
/// `-v` in `x`; `[5]` the corner `(x_min, z_min)` moved by `-v` in `x`; `[6]` that
/// corner moved by `-v` in `z`; `[7]` the corner `(x_max, z_min)` moved by `-v` in `z`;
/// `[8]` that corner moved by `+v` in `x` and `-v` in `z`; `[9]` that corner moved by
/// `+v` in `x`.
pub open spec fn samples_are_corners_and_neighbours(p: Seq<(int, int)>, e: QuadExtent) -> bool {
    let v = VOXEL_SIZE as int;
    let moved = |c: (int, int), dx: int, dz: int| (c.0 + dx, c.1 + dz);
    &&& p.len() == 10
    &&& p[0] == (e.x_min as int, e.z_min as int)
    &&& p[1] == (e.x_max as int, e.z_min as int)
    &&& p[2] == (e.x_min as int, e.z_max as int)
    &&& p[3] == (e.x_max as int, e.z_max as int)
    &&& p[4] == moved(p[2], -v, 0)
    &&& p[5] == moved(p[0], -v, 0)
    &&& p[6] == moved(p[0], 0, -v)
    &&& p[7] == moved(p[1], 0, -v)
    &&& p[8] == moved(p[1], v, -v)
    &&& p[9] == moved(p[1], v, 0)
}

/// The sample points are the quad's corners and the vertices one voxel away from
/// its corners along the stated axes; in particular the ninth is
/// `(x_max + v, z_min - v)`, whatever `x_min` is.
pub proof fn lemma_height_samples_are_corners_and_neighbours(e: QuadExtent)
    ensures
        samples_are_corners_and_neighbours(spec_height_sample_points(e), e),
        spec_height_sample_points(e)[8] == (e.x_max + VOXEL_SIZE, e.z_min - VOXEL_SIZE),
{
}

/// Lists the points at which the height field is sampled to build a quad.
pub fn height_sample_points(e: QuadExtent) -> (points: [[i32; 2]; 10])
    requires
        e.x_min - VOXEL_SIZE >= i32::MIN,
        e.z_min - VOXEL_SIZE >= i32::MIN,
        e.x_max + VOXEL_SIZE <= i32::MAX,
    ensures
        forall|i: int|
            0 <= i < 10 ==> (points@[i]@[0] as int, points@[i]@[1] as int) == #[trigger] spec_height_sample_points(e)[i],
        samples_are_corners_and_neighbours(
            Seq::new(10, |i: int| (points@[i]@[0] as int, points@[i]@[1] as int)),
            e,
        ),
{
    proof {
        lemma_height_samples_are_corners_and_neighbours(e);
    }
    let v = VOXEL_SIZE;
    [
        [e.x_min, e.z_min],
        [e.x_max, e.z_min],
        [e.x_min, e.z_max],
        [e.x_max, e.z_max],
        [e.x_min - v, e.z_max],
        [e.x_min - v, e.z_min],
        [e.x_min, e.z_min - v],
        [e.x_max, e.z_min - v],
        [e.x_max + v, e.z_min - v],
        [e.x_max + v, e.z_min],
    ]
}


/// The extent of the quad at voxel `(x, z)` spans exactly one voxel from
/// `(VOXEL_SIZE * x, VOXEL_SIZE * z)`.
pub proof fn lemma_quad_extent_of_vertices(x: int, z: int)
    ensures
        ({
            let v = spec_quad_vertices(x, z);
            let s = VOXEL_SIZE as int;
            &&& min4(v[0][0], v[1][0], v[2][0], v[3][0]) == s * x
            &&& min4(v[0][1], v[1][1], v[2][1], v[3][1]) == s * z
            &&& max4(v[0][0], v[1][0], v[2][0], v[3][0]) == s * x + s
            &&& max4(v[0][1], v[1][1], v[2][1], v[3][1]) == s * z + s
        }),
{
}


/// The four vertices of the quad at voxel `(x, z)` are the four distinct corners of
/// the square of side `VOXEL_SIZE` whose lowest corner is
/// `(VOXEL_SIZE * x, VOXEL_SIZE * z)`.
pub proof fn lemma_quad_vertices_are_square_corners(x: int, z: int)
    ensures
        ({
            let v = spec_quad_vertices(x, z);
            let s = VOXEL_SIZE as int;
            &&& v.len() == 4
            &&& forall|i: int|
                0 <= i < 4 ==> (#[trigger] v[i]).len() == 2 && (v[i][0] == s * x || v[i][0] == s * x + s) && (
                v[i][1] == s * z || v[i][1] == s * z + s)
            &&& forall|i: int, j: int| 0 <= i < j < 4 ==> #[trigger] v[i] != #[trigger] v[j]
        }),
{
    let v = spec_quad_vertices(x, z);
    assert forall|i: int, j: int| 0 <= i < j < 4 implies #[trigger] v[i] != #[trigger] v[j] by {
        if v[i] == v[j] {
            assert(v[i][0] == v[j][0] && v[i][1] == v[j][1]);
        }
    }
}

} // verus!
