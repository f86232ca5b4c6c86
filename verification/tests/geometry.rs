use vector_race::maths::{dist, dot, sdf_multiple_polygons, sdf_polygon, sdf_segment};
use vector_race::{Cell, WorldPosition};

// One cell is 256 fixed-point units; half a cell is 128.

#[test]
fn segment_distance_on_line() {
    // point on the interior of a horizontal segment through the origin
    let p = WorldPosition(0, 0);
    let a = WorldPosition(-256, 0);
    let b = WorldPosition(256, 0);
    assert_eq!(sdf_segment(&p, &a, &b), 0);
}

#[test]
fn segment_distance_past_endpoint() {
    // point beyond the right endpoint: distance to the nearer endpoint,
    // one cell, signed by the side test (non-negative numerator)
    let p = WorldPosition(512, 0);
    let a = WorldPosition(-256, 0);
    let b = WorldPosition(256, 0);
    assert_eq!(sdf_segment(&p, &a, &b), 256);
}

#[test]
fn segment_distance_signs() {
    let a = WorldPosition(-256, 0);
    let b = WorldPosition(256, 0);
    // left of the directed line (above on screen, y down) is negative
    let above = WorldPosition(0, -256);
    let below = WorldPosition(0, 256);
    let d_above = sdf_segment(&above, &a, &b);
    let d_below = sdf_segment(&below, &a, &b);
    assert_eq!(d_above.abs(), 256);
    assert_eq!(d_below.abs(), 256);
    assert!(d_above < 0 || d_below < 0);
    assert!(d_above > 0 || d_below > 0);
    assert_ne!(d_above > 0, d_below > 0);
}

#[test]
fn segment_distance_degenerate() {
    // coincident endpoints have no distance: the sentinel loses every
    // smallest-magnitude comparison
    let p = WorldPosition(0, 0);
    let a = WorldPosition(100, 100);
    assert_eq!(sdf_segment(&p, &a, &a), i64::MAX);
}

#[test]
fn dist_axis_and_diagonal() {
    assert_eq!(dist(&WorldPosition(0, 0), &WorldPosition(768, 0)), 768);
    // sqrt(256^2 + 256^2) = 362.03..., floored
    assert_eq!(dist(&WorldPosition(0, 0), &WorldPosition(256, 256)), 362);
}

#[test]
fn dot_product() {
    assert_eq!(dot(&(3, 4), &(5, -6)), 3 * 5 + 4 * (-6));
    assert_eq!(dot(&(256, 0), &(0, 256)), 0);
}

fn unit_cell_diamond() -> Vec<WorldPosition> {
    // the traced loop of the single cell (0, 0): its four edge midpoints
    vec![
        WorldPosition(0, 128),
        WorldPosition(128, 256),
        WorldPosition(256, 128),
        WorldPosition(128, 0),
    ]
}

#[test]
fn polygon_distance_inside_negative() {
    let poly = unit_cell_diamond();
    let center = WorldPosition(128, 128);
    // 16384 / isqrt(32768) = 16384 / 181 = 90, negated inside
    assert_eq!(sdf_polygon(&center, &poly), -90);
}

#[test]
fn polygon_distance_outside_positive() {
    let poly = unit_cell_diamond();
    // the centre of the neighbouring cell (1, 0), half a cell to the right
    // of the loop's rightmost vertex
    let p = WorldPosition(384, 128);
    assert_eq!(sdf_polygon(&p, &poly), 128);
}

#[test]
fn polygon_distance_corner_outside() {
    let poly = unit_cell_diamond();
    // the cell's own corner lies outside the diamond of edge midpoints
    let corner = WorldPosition(0, 0);
    assert_eq!(sdf_polygon(&corner, &poly), 90);
}

#[test]
fn multi_polygon_distance_picks_smallest_magnitude() {
    let far = vec![
        WorldPosition(10 * 256, 128),
        WorldPosition(10 * 256 + 128, 256),
        WorldPosition(10 * 256 + 256, 128),
        WorldPosition(10 * 256 + 128, 0),
    ];
    let polys = vec![unit_cell_diamond(), far];
    let center = WorldPosition(128, 128);
    // the near polygon's signed distance wins
    assert_eq!(sdf_multiple_polygons(&center, &polys), -90);
    let empty: Vec<Vec<WorldPosition>> = Vec::new();
    assert_eq!(sdf_multiple_polygons(&center, &empty), i64::MAX);
}

#[test]
fn world_position_cell_floors() {
    assert_eq!(WorldPosition(0, 0).cell(), Cell(0, 0));
    assert_eq!(WorldPosition(255, 256).cell(), Cell(0, 1));
    assert_eq!(WorldPosition(-1, -257).cell(), Cell(-1, -2));
}

#[test]
fn cell_corner_points() {
    let c = Cell(2, -3);
    assert_eq!(c.start_point(), WorldPosition(512, -768));
    assert_eq!(c.center_point(), WorldPosition(640, -640));
    assert_eq!(c.end_point(), WorldPosition(768, -512));
}
