use vector_race::maths::sdf_multiple_polygons;
use vector_race::trace::{boundary_edges, trace};
use vector_race::{Cell, GameMap, Tile, WorldPosition};

fn dirt_map(cells: &[(i32, i32)]) -> GameMap {
    let mut map = GameMap::empty();
    for &(x, y) in cells {
        map.set_tile(Cell(x, y), Tile::Dirt);
    }
    map
}

#[test]
fn single_cell_loop() {
    // one Dirt cell at the origin: one loop of exactly its four edge
    // midpoints, starting from the smallest boundary edge (the left one)
    let map = dirt_map(&[(0, 0)]);
    let loops = trace(&map).unwrap();
    assert_eq!(loops.entries.len(), 1);
    let (tile, tile_loops) = &loops.entries[0];
    assert_eq!(*tile, Tile::Dirt);
    assert_eq!(tile_loops.len(), 1);
    let lp = &tile_loops[0];
    assert_eq!(
        lp.points,
        vec![
            WorldPosition(0, 128),
            WorldPosition(128, 256),
            WorldPosition(256, 128),
            WorldPosition(128, 0),
        ]
    );
    assert_eq!(lp.pairs.len(), 4);
    assert_eq!(lp.pairs[0], (Cell(0, 0), Cell(-1, 0)));
}

#[test]
fn two_cell_block_loop() {
    // two horizontally adjacent Dirt cells: one six-point loop around the
    // block's perimeter, no point on the interior edge between them
    let map = dirt_map(&[(0, 0), (1, 0)]);
    let loops = trace(&map).unwrap();
    assert_eq!(loops.entries.len(), 1);
    let (tile, tile_loops) = &loops.entries[0];
    assert_eq!(*tile, Tile::Dirt);
    assert_eq!(tile_loops.len(), 1);
    let lp = &tile_loops[0];
    assert_eq!(
        lp.points,
        vec![
            WorldPosition(0, 128),
            WorldPosition(128, 256),
            WorldPosition(384, 256),
            WorldPosition(512, 128),
            WorldPosition(384, 0),
            WorldPosition(128, 0),
        ]
    );
}

#[test]
fn ring_with_hole_gives_two_loops() {
    // a 3x3 Dirt block with its centre Empty: an outer perimeter loop and
    // an oppositely wound four-point hole loop, both for Dirt
    let mut cells = Vec::new();
    for x in 0..3 {
        for y in 0..3 {
            if !(x == 1 && y == 1) {
                cells.push((x, y));
            }
        }
    }
    let map = dirt_map(&cells);
    let loops = trace(&map).unwrap();
    assert_eq!(loops.entries.len(), 1);
    let (tile, tile_loops) = &loops.entries[0];
    assert_eq!(*tile, Tile::Dirt);
    assert_eq!(tile_loops.len(), 2);
    assert_eq!(tile_loops[0].points.len(), 12);
    assert_eq!(tile_loops[1].points.len(), 4);

    let polys: Vec<Vec<WorldPosition>> =
        tile_loops.iter().map(|lp| lp.points.clone()).collect();
    // the centre of the enclosed Empty cell evaluates as outside Dirt
    let hole_center = Cell(1, 1).center_point();
    assert!(sdf_multiple_polygons(&hole_center, &polys) > 0);
    // the centre of a Dirt cell evaluates as inside
    let dirt_center = Cell(0, 0).center_point();
    assert!(sdf_multiple_polygons(&dirt_center, &polys) < 0);
    // the centre of an adjacent Empty cell outside the block is outside
    let outside_center = Cell(-1, 0).center_point();
    assert!(sdf_multiple_polygons(&outside_center, &polys) > 0);
}

#[test]
fn sign_correctness_for_simple_loop() {
    // a simple hole-free region: every inside cell centre is negative,
    // every adjacent different-type cell centre positive
    let map = dirt_map(&[(0, 0), (1, 0)]);
    let loops = trace(&map).unwrap();
    let polys: Vec<Vec<WorldPosition>> = loops.entries[0]
        .1
        .iter()
        .map(|lp| lp.points.clone())
        .collect();
    for inside in [Cell(0, 0), Cell(1, 0)] {
        assert!(sdf_multiple_polygons(&inside.center_point(), &polys) < 0);
    }
    for outside in [
        Cell(-1, 0),
        Cell(2, 0),
        Cell(0, -1),
        Cell(1, -1),
        Cell(0, 1),
        Cell(1, 1),
    ] {
        assert!(sdf_multiple_polygons(&outside.center_point(), &polys) > 0);
    }
}

#[test]
fn loops_consume_every_boundary_edge_once() {
    let map = dirt_map(&[(0, 0), (1, 0), (5, 5)]);
    let edges = boundary_edges(&map);
    let loops = trace(&map).unwrap();
    let mut consumed: Vec<(Cell, Cell)> = Vec::new();
    for (_, tile_loops) in &loops.entries {
        for lp in tile_loops {
            consumed.extend(lp.pairs.iter().cloned());
        }
    }
    assert_eq!(consumed.len(), edges.len());
    for e in &edges {
        assert_eq!(consumed.iter().filter(|c| *c == e).count(), 1);
    }
}

#[test]
fn tracing_is_deterministic() {
    let map = dirt_map(&[(0, 0), (1, 0), (1, 1), (4, 2)]);
    let first = trace(&map).unwrap();
    let second = trace(&map).unwrap();
    assert_eq!(first.entries.len(), second.entries.len());
    for (a, b) in first.entries.iter().zip(second.entries.iter()) {
        assert_eq!(a.0, b.0);
        assert_eq!(a.1.len(), b.1.len());
        for (la, lb) in a.1.iter().zip(b.1.iter()) {
            assert_eq!(la.points, lb.points);
            assert_eq!(la.pairs, lb.pairs);
        }
    }
}

#[test]
fn empty_grid_traces_to_empty_loop_set() {
    let map = GameMap::empty();
    let loops = trace(&map).unwrap();
    assert_eq!(loops.entries.len(), 0);
}

#[test]
fn explicitly_set_empty_cells_are_not_foreground() {
    // a cell written with the Empty tile never contributes boundary edges
    // of its own
    let mut map = GameMap::empty();
    map.set_tile(Cell(0, 0), Tile::Empty);
    let loops = trace(&map).unwrap();
    assert_eq!(loops.entries.len(), 0);
    assert_eq!(boundary_edges(&map).len(), 0);
}

#[test]
fn two_tile_kinds_get_separate_entries() {
    let mut map = GameMap::empty();
    map.set_tile(Cell(0, 0), Tile::Dirt);
    map.set_tile(Cell(3, 0), Tile::Ice);
    let loops = trace(&map).unwrap();
    assert_eq!(loops.entries.len(), 2);
    let tiles: Vec<Tile> = loops.entries.iter().map(|e| e.0).collect();
    assert!(tiles.contains(&Tile::Dirt));
    assert!(tiles.contains(&Tile::Ice));
    for (_, tile_loops) in &loops.entries {
        assert_eq!(tile_loops.len(), 1);
        assert_eq!(tile_loops[0].points.len(), 4);
    }
}

#[test]
fn adjacent_different_tiles_face_each_other() {
    // Dirt next to Ice: each side traces its own loop and the shared edge
    // appears once per direction
    let mut map = GameMap::empty();
    map.set_tile(Cell(0, 0), Tile::Dirt);
    map.set_tile(Cell(1, 0), Tile::Ice);
    let edges = boundary_edges(&map);
    assert_eq!(edges.len(), 8);
    assert!(edges.contains(&(Cell(0, 0), Cell(1, 0))));
    assert!(edges.contains(&(Cell(1, 0), Cell(0, 0))));
    let loops = trace(&map).unwrap();
    assert_eq!(loops.entries.len(), 2);
}
